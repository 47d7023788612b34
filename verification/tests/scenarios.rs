//! End-to-end scenarios through the render facade.

use flicker::Affine;
use flicker::Color;
use flicker::Path;
use flicker::Point;
use flicker::Renderer;

const FX: i64 = 256;

fn channels(p: u32) -> (u32, u32, u32, u32) {
    (p >> 24, (p >> 16) & 0xFF, (p >> 8) & 0xFF, p & 0xFF)
}

fn close_to(actual: u32, expected: u32, tol: u32) -> bool {
    let lo = expected.saturating_sub(tol);
    let hi = expected.saturating_add(tol);
    lo <= actual && actual <= hi
}

/// A 1x1 black framebuffer; a triangle covering half the pixel filled with
/// opaque red blends to half red.
#[test]
fn triangle_half_cover() {
    let renderer = Renderer::new();
    let data = vec![0xFF000000u32];
    let mut target = renderer.attach(data, 1, 1);

    let mut path = Path::new();
    path.move_to(Point::new(0, 0));
    path.line_to(Point::new(FX, 0));
    path.line_to(Point::new(0, FX));
    path.close();

    target.fill_path(&path, Affine::id(), Color::rgba(255, 0, 0, 255));
    let px = target.pixel(0, 0);
    let (a, r, g, b) = channels(px);
    assert_eq!(a, 255);
    assert!(close_to(r, 128, 1), "red channel was {}", r);
    assert_eq!(g, 0);
    assert_eq!(b, 0);
}

/// A 4x1 framebuffer; a rectangle from x=1.5 to x=3.5 spanning the full row
/// in opaque white gives half, full, half coverage on the three pixels it
/// touches.
#[test]
fn rectangle_partial_columns() {
    let renderer = Renderer::new();
    let data = vec![0u32; 4];
    let mut target = renderer.attach(data, 4, 1);

    let mut path = Path::new();
    path.move_to(Point::new(384, 0));
    path.line_to(Point::new(896, 0));
    path.line_to(Point::new(896, FX));
    path.line_to(Point::new(384, FX));
    path.close();

    target.fill_path(&path, Affine::id(), Color::rgba(255, 255, 255, 255));
    let expected = [0x00u32, 0x80, 0xFF, 0x80];
    for x in 0..4 {
        let (a, r, g, b) = channels(target.pixel(x, 0));
        for ch in [a, r, g, b] {
            assert!(
                close_to(ch, expected[x], 1),
                "pixel {} channel {} vs {}",
                x,
                ch,
                expected[x]
            );
        }
    }
}

/// An 8x8 framebuffer cleared to black; a horizontal width-1 white stroke
/// from (1,4) to (7,4) covers the half-pixel bands of rows 3 and 4 over
/// columns 1..=6, and nothing else.
#[test]
fn stroke_horizontal_line() {
    let renderer = Renderer::new();
    let data = vec![0u32; 64];
    let mut target = renderer.attach(data, 8, 8);
    target.clear(Color::rgba(0, 0, 0, 255));

    let mut path = Path::new();
    path.move_to(Point::new(1 * FX, 4 * FX));
    path.line_to(Point::new(7 * FX, 4 * FX));

    target.stroke_path(&path, FX, Affine::id(), Color::rgba(255, 255, 255, 255));

    for y in 0..8 {
        for x in 0..8 {
            let (a, r, g, b) = channels(target.pixel(x, y));
            assert_eq!(a, 255, "alpha at ({}, {})", x, y);
            if (y == 3 || y == 4) && (1..=6).contains(&x) {
                // Half coverage of white over black.
                for ch in [r, g, b] {
                    assert!(close_to(ch, 128, 1), "({}, {}) channel {}", x, y, ch);
                }
            } else {
                assert_eq!((r, g, b), (0, 0, 0), "({}, {}) should stay black", x, y);
            }
        }
    }
}

/// Filling an empty path leaves the framebuffer untouched.
#[test]
fn empty_path_noop() {
    let renderer = Renderer::new();
    let data = vec![0xFF123456u32; 12];
    let mut target = renderer.attach(data, 4, 3);
    let path = Path::new();
    target.fill_path(&path, Affine::id(), Color::rgba(10, 20, 30, 200));
    for y in 0..3 {
        for x in 0..4 {
            assert_eq!(target.pixel(x, y), 0xFF123456);
        }
    }
}

/// A closed path entirely left of the viewport whose y range overlaps it
/// leaves the framebuffer byte-identical: the left-edge folds cancel.
#[test]
fn path_left_of_viewport_noop() {
    let renderer = Renderer::new();
    let data = vec![0xFFABCDEFu32; 16];
    let mut target = renderer.attach(data, 4, 4);

    let mut path = Path::new();
    path.move_to(Point::new(-3 * FX, 1 * FX));
    path.line_to(Point::new(-1 * FX, 1 * FX));
    path.line_to(Point::new(-1 * FX, 3 * FX));
    path.line_to(Point::new(-3 * FX, 3 * FX));
    path.close();

    target.fill_path(&path, Affine::id(), Color::rgba(255, 255, 255, 255));
    for y in 0..4 {
        for x in 0..4 {
            assert_eq!(target.pixel(x, y), 0xFFABCDEF);
        }
    }
}

/// A fully transparent color never changes the framebuffer, whatever the
/// path.
#[test]
fn transparent_color_noop() {
    let renderer = Renderer::new();
    let data = vec![0xFF336699u32; 16];
    let mut target = renderer.attach(data, 4, 4);

    let mut path = Path::new();
    path.move_to(Point::new(0, 0));
    path.line_to(Point::new(4 * FX, 0));
    path.line_to(Point::new(4 * FX, 4 * FX));
    path.line_to(Point::new(0, 4 * FX));
    path.close();

    target.fill_path(&path, Affine::id(), Color::rgba(9, 8, 7, 0));
    for y in 0..4 {
        for x in 0..4 {
            assert_eq!(target.pixel(x, y), 0xFF336699);
        }
    }
}

/// The opaque-fill fast path stores the packed source color exactly on
/// fully covered interior pixels.
#[test]
fn opaque_interior_exact() {
    let renderer = Renderer::new();
    let data = vec![0xFF101010u32; 64];
    let mut target = renderer.attach(data, 8, 8);

    let mut path = Path::new();
    path.move_to(Point::new(0, 0));
    path.line_to(Point::new(8 * FX, 0));
    path.line_to(Point::new(8 * FX, 8 * FX));
    path.line_to(Point::new(0, 8 * FX));
    path.close();

    target.fill_path(&path, Affine::id(), Color::rgba(12, 34, 56, 255));
    for y in 0..8 {
        for x in 0..8 {
            assert_eq!(target.pixel(x, y), 0xFF0C2238, "pixel ({}, {})", x, y);
        }
    }
}

/// Transforms scale and translate paths: a unit square scaled by 2 and
/// translated by (1,1) fills pixels 1..=2 in both axes exactly.
#[test]
fn transform_scale_translate() {
    let renderer = Renderer::new();
    let data = vec![0u32; 16];
    let mut target = renderer.attach(data, 4, 4);

    let mut path = Path::new();
    path.move_to(Point::new(0, 0));
    path.line_to(Point::new(FX, 0));
    path.line_to(Point::new(FX, FX));
    path.line_to(Point::new(0, FX));
    path.close();

    let tr = Affine::translate(FX, FX).compose(&Affine::scale(2 * FX));
    target.fill_path(&path, tr, Color::rgba(255, 255, 255, 255));
    for y in 0..4 {
        for x in 0..4 {
            let expect = if (1..=2).contains(&x) && (1..=2).contains(&y) { 0xFFFFFFFFu32 } else { 0 };
            assert_eq!(target.pixel(x, y), expect, "pixel ({}, {})", x, y);
        }
    }
}
