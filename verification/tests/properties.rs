//! Property instances on the rasterizer core and the small helpers.

use flicker::raster::Rasterizer;
use flicker::Color;
use flicker::Point;

const FX: i64 = 256;

/// After `finish`, the coverage buffer and the bitmask rows are all zero
/// again, and a second `finish` leaves the framebuffer alone.
#[test]
fn reset_after_finish() {
    let mut r = Rasterizer::with_size(8, 4);
    r.add_line(Point::new(FX / 2, 0), Point::new(5 * FX / 2, 4 * FX));
    r.add_line(Point::new(5 * FX / 2, 4 * FX), Point::new(FX / 2, 0));
    let mut fb = vec![0xFF000000u32; 32];
    r.finish(Color::rgba(200, 100, 50, 255), &mut fb, 0, 8);
    for y in 0..4 {
        for x in 0..8 {
            assert_eq!(r.coverage_value(y, x), 0, "coverage at ({}, {})", x, y);
        }
        assert_eq!(r.bitmask_word(y, 0), 0, "bitmask row {}", y);
    }
    let snapshot = fb.clone();
    r.finish(Color::rgba(1, 2, 3, 255), &mut fb, 0, 8);
    assert_eq!(fb, snapshot);
}

/// Bitmask tightness: exactly the 4-pixel cells that received a delta have
/// their (MSB-first) bit set.
#[test]
fn bitmask_marks_touched_cells() {
    let mut r = Rasterizer::with_size(16, 2);
    // A vertical edge inside column 5: deltas land on columns 5 and 6,
    // both in cell 1, on both rows.
    r.add_line(Point::new(5 * FX + 128, 0), Point::new(5 * FX + 128, 2 * FX));
    for y in 0..2 {
        let word = r.bitmask_word(y, 0);
        assert_eq!(word, 1u64 << 62, "row {} word {:#x}", y, word);
    }

    // A vertical edge at column 9 also marks cell 2 (columns 8..11).
    r.add_line(Point::new(9 * FX, 0), Point::new(9 * FX, FX));
    let word = r.bitmask_word(0, 0);
    assert_eq!(word, (1u64 << 62) | (1u64 << 61));
}

/// Decomposing a polygon along a shared edge accumulates exactly the same
/// coverage: the shared edge is walked once in each direction and cancels.
#[test]
fn decomposition_same_coverage() {
    let a = Point::new(FX / 2, FX / 3);
    let b = Point::new(7 * FX, FX / 2);
    let c = Point::new(6 * FX + 13, 5 * FX);
    let d = Point::new(FX / 4, 4 * FX + 7);

    let mut whole = Rasterizer::with_size(8, 6);
    whole.add_line(a, b);
    whole.add_line(b, c);
    whole.add_line(c, d);
    whole.add_line(d, a);

    let mut parts = Rasterizer::with_size(8, 6);
    // Triangle a-b-c, then triangle a-c-d: the diagonal a-c is walked in
    // both directions.
    parts.add_line(a, b);
    parts.add_line(b, c);
    parts.add_line(c, a);
    parts.add_line(a, c);
    parts.add_line(c, d);
    parts.add_line(d, a);

    for y in 0..6 {
        for x in 0..8 {
            assert_eq!(
                whole.coverage_value(y, x),
                parts.coverage_value(y, x),
                "coverage at ({}, {})",
                x,
                y
            );
        }
    }
}

/// Translating a segment by whole pixels translates its coverage deltas
/// exactly.
#[test]
fn translation_moves_coverage() {
    let p0 = Point::new(FX + 17, FX / 5);
    let p1 = Point::new(3 * FX + 201, 3 * FX + 190);
    let (dx, dy) = (2i64, 1i64);

    let mut orig = Rasterizer::with_size(8, 6);
    orig.add_line(p0, p1);

    let mut moved = Rasterizer::with_size(8, 6);
    moved.add_line(
        Point::new(p0.x + dx * FX, p0.y + dy * FX),
        Point::new(p1.x + dx * FX, p1.y + dy * FX),
    );

    for y in 0..4 {
        for x in 0..5 {
            assert_eq!(
                orig.coverage_value(y, x),
                moved.coverage_value(y + dy as usize, x + dx as usize),
                "coverage at ({}, {})",
                x,
                y
            );
        }
    }
}

/// Coverage is additive: adding the same segment twice doubles every
/// coverage entry.
#[test]
fn coverage_additive() {
    let p0 = Point::new(FX / 2, 0);
    let p1 = Point::new(5 * FX / 2, 3 * FX);

    let mut once = Rasterizer::with_size(4, 3);
    once.add_line(p0, p1);
    let mut twice = Rasterizer::with_size(4, 3);
    twice.add_line(p0, p1);
    twice.add_line(p0, p1);

    for y in 0..3 {
        for x in 0..4 {
            assert_eq!(2 * once.coverage_value(y, x), twice.coverage_value(y, x));
        }
    }
}

/// A closed polygon entirely above, below or right of the raster adds no
/// deltas at all; one entirely to the left folds onto column zero and
/// cancels.
#[test]
fn outside_polygons_are_neutral() {
    let quads: [[(i64, i64); 4]; 4] = [
        [(1, -5), (3, -5), (3, -1), (1, -1)],   // above
        [(1, 9), (3, 9), (3, 12), (1, 12)],     // below
        [(9, 1), (12, 1), (12, 3), (9, 3)],     // right
        [(-4, 1), (-2, 1), (-2, 3), (-4, 3)],   // left
    ];
    for quad in quads.iter() {
        let mut r = Rasterizer::with_size(8, 8);
        for k in 0..4 {
            let (x0, y0) = quad[k];
            let (x1, y1) = quad[(k + 1) % 4];
            r.add_line(Point::new(x0 * FX, y0 * FX), Point::new(x1 * FX, y1 * FX));
        }
        let mut fb = vec![0xFF004488u32; 64];
        r.finish(Color::rgba(255, 255, 255, 255), &mut fb, 0, 8);
        assert!(fb.iter().all(|&p| p == 0xFF004488), "{:?}", quad);
    }
}

/// The packed color round-trips through its channels.
#[test]
fn color_pack_roundtrip() {
    let c = Color::rgba(0x12, 0x34, 0x56, 0x78);
    assert_eq!(c.a(), 0x78);
    assert_eq!(c.r(), 0x12);
    assert_eq!(c.g(), 0x34);
    assert_eq!(c.b(), 0x56);
    assert_eq!(c.packed(), 0x78123456);
    let back = Color::from_packed(0x78123456);
    assert_eq!(back.packed(), 0x78123456);
    let as_u32: u32 = c.into();
    assert_eq!(as_u32, 0x78123456);
}

/// The integer square root brackets its argument.
#[test]
fn isqrt_brackets() {
    for n in [0u64, 1, 2, 3, 4, 15, 16, 17, 255, 256, 65535, 65536, 0x3FFF_FFFF_FFFF_FFFF] {
        let r = flicker::flatten::isqrt(n);
        assert!(r * r <= n);
        assert!((r + 1).checked_mul(r + 1).map(|s| s > n).unwrap_or(true));
    }
}

/// Bounding boxes clamp to the clip and pad the high side by one pixel.
#[test]
fn bbox_of_triangle() {
    let mut path = flicker::Path::new();
    path.move_to(Point::new(FX / 2, FX / 2));
    path.line_to(Point::new(5 * FX, FX));
    path.line_to(Point::new(FX, 4 * FX));
    path.close();
    let clip = flicker::Bbox { x0: 0, y0: 0, x1: 8, y1: 8 };
    let bb = flicker::bbox::fill(&path, flicker::Affine::id(), clip);
    assert_eq!((bb.x0, bb.y0, bb.x1, bb.y1), (0, 0, 6, 5));
    assert!(!bb.is_empty());
    let empty = flicker::Bbox { x0: 3, y0: 0, x1: 3, y1: 8 };
    assert!(empty.is_empty());
}

/// Compositing into an offset sub-region of a larger framebuffer touches
/// only that region's rows and columns.
#[test]
fn finish_respects_offset_and_stride() {
    let mut r = Rasterizer::with_size(2, 2);
    // A closed 2x2 square covering the raster fully.
    let q = [(0i64, 0i64), (2, 0), (2, 2), (0, 2)];
    for k in 0..4 {
        let (x0, y0) = q[k];
        let (x1, y1) = q[(k + 1) % 4];
        r.add_line(Point::new(x0 * FX, y0 * FX), Point::new(x1 * FX, y1 * FX));
    }
    let mut fb = vec![0u32; 5 * 4];
    // Place the 2x2 region at (1,1) of a 5-wide framebuffer.
    r.finish(Color::rgba(255, 255, 255, 255), &mut fb, 1 * 5 + 1, 5);
    for y in 0..4 {
        for x in 0..5 {
            let expect = if (1..=2).contains(&x) && (1..=2).contains(&y) {
                0xFFFFFFFFu32
            } else {
                0
            };
            assert_eq!(fb[y * 5 + x], expect, "pixel ({}, {})", x, y);
        }
    }
}

/// The transform stack scopes transforms: push composes, pop restores.
#[test]
fn transform_stack_scopes() {
    let renderer = flicker::Renderer::new();
    let data = vec![0u32; 16];
    let mut target = renderer.attach(data, 4, 4);

    let mut path = flicker::Path::new();
    path.move_to(Point::new(0, 0));
    path.line_to(Point::new(FX, 0));
    path.line_to(Point::new(FX, FX));
    path.line_to(Point::new(0, FX));
    path.close();

    target.push_transform(flicker::Affine::translate(2 * FX, 2 * FX));
    target.fill_path(&path, flicker::Affine::id(), Color::rgba(255, 255, 255, 255));
    target.pop_transform();
    target.fill_path(&path, flicker::Affine::id(), Color::rgba(255, 255, 255, 255));

    for y in 0..4 {
        for x in 0..4 {
            let painted = (x == 0 && y == 0) || (x == 2 && y == 2);
            let expect = if painted { 0xFFFFFFFFu32 } else { 0 };
            assert_eq!(target.pixel(x, y), expect, "pixel ({}, {})", x, y);
        }
    }
}

/// Detaching returns the framebuffer and a renderer that can be reused.
#[test]
fn detach_and_reuse() {
    let renderer = flicker::Renderer::new();
    let data = vec![7u32; 4];
    let mut target = renderer.attach(data, 2, 2);
    target.clear(Color::rgba(1, 2, 3, 4));
    let (renderer, data) = target.detach();
    assert_eq!(data, vec![0x04010203u32; 4]);
    let mut target = renderer.attach(vec![0u32; 4], 2, 2);
    assert_eq!(target.width(), 2);
    assert_eq!(target.height(), 2);
    target.clear(Color::rgba(0, 0, 0, 255));
    assert_eq!(target.pixel(1, 1), 0xFF000000);
}

/// Stroking a diagonal segment paints symmetric coverage along it.
#[test]
fn stroke_diagonal_symmetric() {
    let renderer = flicker::Renderer::new();
    let data = vec![0u32; 64];
    let mut target = renderer.attach(data, 8, 8);
    target.clear(Color::rgba(0, 0, 0, 255));

    let mut path = flicker::Path::new();
    path.move_to(Point::new(1 * FX, 1 * FX));
    path.line_to(Point::new(7 * FX, 7 * FX));
    target.stroke_path(&path, FX, flicker::Affine::id(), Color::rgba(255, 255, 255, 255));

    // The stroke is symmetric under the diagonal reflection (x,y) -> (y,x),
    // up to the one-unit rounding of the crossing positions.
    for y in 0..8 {
        for x in 0..8 {
            let p = target.pixel(x, y);
            let q = target.pixel(y, x);
            for shift in [24u32, 16, 8, 0] {
                let a = (p >> shift) & 0xFF;
                let b = (q >> shift) & 0xFF;
                let diff = if a > b { a - b } else { b - a };
                assert!(diff <= 1, "asymmetry at ({}, {}): {:#x} vs {:#x}", x, y, p, q);
            }
        }
    }
    // The middle of the stroke is solidly painted.
    let (_, r, g, b) = {
        let p = target.pixel(4, 4);
        (p >> 24, (p >> 16) & 0xFF, (p >> 8) & 0xFF, p & 0xFF)
    };
    assert!(r > 200 && g > 200 && b > 200, "stroke center too faint: {} {} {}", r, g, b);
}

/// A delta whose carry is zero marks only the cell that actually receives
/// a value: a vertical edge exactly on a cell boundary leaves the next
/// cell's bit clear.
#[test]
fn boundary_edge_marks_one_cell() {
    let mut r = Rasterizer::with_size(16, 1);
    // A vertical edge at exactly x = 7: full area lands on column 7
    // (cell 1); the carry to column 8 (cell 2) is zero.
    r.add_line(Point::new(7 * FX, 0), Point::new(7 * FX, FX));
    assert_eq!(r.bitmask_word(0, 0), 1u64 << 62);
    assert_eq!(r.coverage_value(0, 7), 131072);
    assert_eq!(r.coverage_value(0, 8), 0);
}

/// Growing and then shrinking the raster size keeps the allocation: the
/// buffers only ever grow.
#[test]
fn set_size_never_shrinks() {
    let mut r = Rasterizer::with_size(8, 8);
    r.set_size(1, 1);
    // The old 8x8 coverage is still allocated and still zero.
    let mut fb = vec![0xFF000000u32; 1];
    r.add_line(Point::new(0, 0), Point::new(0, FX));
    r.add_line(Point::new(FX, FX), Point::new(FX, 0));
    r.finish(Color::rgba(255, 255, 255, 255), &mut fb, 0, 1);
    assert_eq!(fb[0], 0xFFFFFFFF);
}

/// A framebuffer longer than `width * height` keeps its tail untouched.
#[test]
fn attach_accepts_longer_buffers() {
    let renderer = flicker::Renderer::new();
    let data = vec![0xAA55AA55u32; 7];
    let mut target = renderer.attach(data, 2, 2);
    target.clear(Color::rgba(0, 0, 0, 255));
    let (_, data) = target.detach();
    assert_eq!(&data[0..4], &[0xFF000000; 4]);
    assert_eq!(&data[4..7], &[0xAA55AA55; 3]);
}

/// Stroke width scales with the transform: a width-1 stroke under a
/// 2x scale covers twice the rows.
#[test]
fn stroke_width_scales_with_transform() {
    let renderer = flicker::Renderer::new();
    let data = vec![0u32; 64];
    let mut target = renderer.attach(data, 8, 8);
    target.clear(Color::rgba(0, 0, 0, 255));

    let mut path = flicker::Path::new();
    path.move_to(Point::new(0, 2 * FX));
    path.line_to(Point::new(4 * FX, 2 * FX));
    // Scaled by 2: the line maps to y = 4, the width-1 stroke to a band
    // from y = 3 to y = 5, fully covering rows 3 and 4.
    target.stroke_path(&path, FX, flicker::Affine::scale(2 * FX), Color::rgba(255, 255, 255, 255));

    for y in 0..8 {
        for x in 0..8 {
            let p = target.pixel(x, y);
            if (y == 3 || y == 4) && x < 8 {
                assert_eq!(p, 0xFFFFFFFF, "({}, {}) should be solid", x, y);
            } else {
                assert_eq!(p, 0xFF000000, "({}, {}) should stay black", x, y);
            }
        }
    }
}
