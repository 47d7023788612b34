//! Turning paths into the line segments the rasterizer consumes.
//!
//! Filling transforms each point and joins consecutive points with
//! segments, closing every sub-path back to its start (also implicitly at
//! the end of the path, as the compositor's winding rule needs closed
//! outlines). Stroking expands each segment into a closed quad offset by
//! half the stroke width perpendicular to the segment, with butt caps and
//! no joins; the perpendicular is normalized with an integer square root.

use vstd::prelude::*;

use crate::geom::spec_apply_x;
use crate::geom::spec_apply_y;
use crate::geom::spec_clamp_coord;
use crate::geom::Affine;
use crate::geom::Point;
use crate::path::Command;
use crate::path::Path;

verus! {

/// One line segment in device coordinates.
#[derive(Clone, Copy, PartialEq, Eq, Structural, Debug)]
pub struct Line {
    pub p0: Point,
    pub p1: Point,
}

/// A transformed, coordinate-clamped point.
pub open spec fn tf_point(t: Affine, p: Point) -> Point {
    Point {
        x: spec_clamp_coord(spec_apply_x(t, p.x as int, p.y as int)) as i64,
        y: spec_clamp_coord(spec_apply_y(t, p.x as int, p.y as int)) as i64,
    }
}

/// The flattening state after a prefix of the commands: the segments
/// emitted so far, the start of the current sub-path and the current point.
pub struct FlatAcc {
    pub segs: Seq<Line>,
    pub first: Point,
    pub last: Point,
}

/// Flattening a command list, command by command.
pub open spec fn flat_acc(cmds: Seq<Command>, t: Affine) -> FlatAcc
    decreases cmds.len(),
{
    if cmds.len() == 0 {
        FlatAcc { segs: Seq::empty(), first: Point { x: 0, y: 0 }, last: Point { x: 0, y: 0 } }
    } else {
        let prev = flat_acc(cmds.drop_last(), t);
        match cmds.last() {
            Command::Move(p) => FlatAcc { segs: prev.segs, first: tf_point(t, p), last: tf_point(t, p) },
            Command::Line(p) => FlatAcc {
                segs: prev.segs.push(Line { p0: prev.last, p1: tf_point(t, p) }),
                first: prev.first,
                last: tf_point(t, p),
            },
            Command::Close => FlatAcc {
                segs: prev.segs.push(Line { p0: prev.last, p1: prev.first }),
                first: prev.first,
                last: prev.first,
            },
        }
    }
}

/// All segments a filled path flattens to: the emitted segments, plus the
/// implicit closing segment if the path did not end where it began.
pub open spec fn fill_segs(cmds: Seq<Command>, t: Affine) -> Seq<Line> {
    let acc = flat_acc(cmds, t);
    if acc.last != acc.first {
        acc.segs.push(Line { p0: acc.last, p1: acc.first })
    } else {
        acc.segs
    }
}

/// Flatten a filled path: transform every point and emit the closed
/// outline's segments into `out`.
pub fn fill(path: &Path, transform: Affine, out: &mut Vec<Line>)
    requires
        path.wf(),
        transform.wf(),
    ensures
        final(out)@ =~= old(out)@ + fill_segs(path.view(), transform),
        forall|k: int|
            old(out)@.len() <= k < final(out)@.len() ==> (#[trigger] final(out)@[k]).p0.wf()
                && final(out)@[k].p1.wf(),
{
    let ghost base = out@;
    let mut first = Point { x: 0, y: 0 };
    let mut last = Point { x: 0, y: 0 };
    let n = path.cmds.len();
    let mut i: usize = 0;
    while i < n
        invariant
            0 <= i <= n,
            n == path.view().len(),
            path.wf(),
            transform.wf(),
            first == flat_acc(path.view().take(i as int), transform).first,
            last == flat_acc(path.view().take(i as int), transform).last,
            out@ =~= base + flat_acc(path.view().take(i as int), transform).segs,
            first.wf(),
            last.wf(),
            forall|k: int|
                base.len() <= k < out@.len() ==> (#[trigger] out@[k]).p0.wf() && out@[k].p1.wf(),
        decreases n - i,
    {
        let cmd = path.cmds[i];
        proof {
            assert(path.view().take(i + 1).drop_last() =~= path.view().take(i as int));
            assert(path.view().take(i + 1).last() == path.view()[i as int]);
            assert(path.view()[i as int].wf());
        }
        match cmd {
            Command::Move(p) => {
                let q = transform.apply(p);
                proof {
                    assert(q == tf_point(transform, p));
                }
                first = q;
                last = q;
            },
            Command::Line(p) => {
                let q = transform.apply(p);
                proof {
                    assert(q == tf_point(transform, p));
                }
                out.push(Line { p0: last, p1: q });
                last = q;
            },
            Command::Close => {
                out.push(Line { p0: last, p1: first });
                last = first;
            },
        }
        i = i + 1;
    }
    proof {
        assert(path.view().take(n as int) =~= path.view());
    }
    if last.x != first.x || last.y != first.y {
        out.push(Line { p0: last, p1: first });
    }
}

/// The integer square root: the largest `r` with `r * r <= n`.
pub open spec fn spec_isqrt(n: int, r: int) -> bool {
    r * r <= n < (r + 1) * (r + 1)
}

/// The integer square root, as a function.
pub open spec fn sqrt_floor(n: int) -> int {
    choose|r: int| 0 <= r && spec_isqrt(n, r)
}

/// The integer square root is unique.
proof fn lemma_isqrt_unique(n: int, r1: int, r2: int)
    by (nonlinear_arith)
    requires
        0 <= r1,
        0 <= r2,
        spec_isqrt(n, r1),
        spec_isqrt(n, r2),
    ensures
        r1 == r2,
{
}

/// Binary-search integer square root.
pub fn isqrt(n: u64) -> (r: u64)
    requires
        n < 0x4000_0000_0000_0000,
    ensures
        spec_isqrt(n as int, r as int),
        r as int == sqrt_floor(n as int),
        r <= 0x8000_0000,
{
    let mut lo: u64 = 0;
    let mut hi: u64 = 0x8000_0000;
    // Invariant: lo*lo <= n < hi*hi.
    proof {
        assert((0x8000_0000u64 as int) * (0x8000_0000u64 as int) > n as int);
    }
    while lo + 1 < hi
        invariant
            lo < hi <= 0x8000_0000,
            lo * lo <= n,
            (hi as int) * (hi as int) > n as int,
        decreases hi - lo,
    {
        let mid = lo + (hi - lo) / 2;
        proof {
            assert((mid as int) * (mid as int) < 0x8000_0000_0000_0000) by (nonlinear_arith)
                requires
                    mid <= 0x8000_0000,
            ;
        }
        if mid * mid <= n {
            lo = mid;
        } else {
            hi = mid;
        }
    }
    proof {
        assert((lo as int + 1) * (lo as int + 1) > n as int);
        assert(spec_isqrt(n as int, lo as int));
        let w = choose|r: int| 0 <= r && spec_isqrt(n as int, r);
        assert(0 <= lo as int && spec_isqrt(n as int, lo as int));
        assert(exists|r: int| 0 <= r && spec_isqrt(n as int, r));
        lemma_isqrt_unique(n as int, lo as int, w);
    }
    lo
}

/// The flattening state over untransformed points: the segments of the
/// path in its own coordinates. Stroking expands these in the path's space
/// and only then transforms the expanded outline, so the stroke width
/// scales with the transform, as the bounds' dilation does.
pub open spec fn raw_acc(cmds: Seq<Command>) -> FlatAcc
    decreases cmds.len(),
{
    if cmds.len() == 0 {
        FlatAcc { segs: Seq::empty(), first: Point { x: 0, y: 0 }, last: Point { x: 0, y: 0 } }
    } else {
        let prev = raw_acc(cmds.drop_last());
        match cmds.last() {
            Command::Move(p) => FlatAcc { segs: prev.segs, first: p, last: p },
            Command::Line(p) => FlatAcc {
                segs: prev.segs.push(Line { p0: prev.last, p1: p }),
                first: prev.first,
                last: p,
            },
            Command::Close => FlatAcc {
                segs: prev.segs.push(Line { p0: prev.last, p1: prev.first }),
                first: prev.first,
                last: prev.first,
            },
        }
    }
}

/// The perpendicular half-width offset of a stroked segment: the segment's
/// direction rotated a quarter turn, scaled to length `width/2`. Zero for a
/// degenerate segment.
pub open spec fn stroke_normal(a: Point, b: Point, width: int) -> (int, int) {
    let len = sqrt_floor((b.x - a.x) * (b.x - a.x) + (b.y - a.y) * (b.y - a.y));
    if len <= 0 {
        (0, 0)
    } else {
        (-((b.y - a.y) * (width / 2)) / len, ((b.x - a.x) * (width / 2)) / len)
    }
}

/// A point clamped into the accepted coordinate range.
pub open spec fn clamped_point(x: int, y: int) -> Point {
    Point { x: spec_clamp_coord(x) as i64, y: spec_clamp_coord(y) as i64 }
}

/// The closed quad of one stroked segment: the segment offset half a
/// width to each side in the path's own space, with butt caps, its corners
/// then transformed to device space. Nothing for a degenerate segment.
pub open spec fn stroke_quad(a: Point, b: Point, width: int, t: Affine) -> Seq<Line> {
    if a == b {
        Seq::empty()
    } else {
        let n = stroke_normal(a, b, width);
        let q0 = tf_point(t, clamped_point(a.x + n.0, a.y + n.1));
        let q1 = tf_point(t, clamped_point(b.x + n.0, b.y + n.1));
        let q2 = tf_point(t, clamped_point(b.x - n.0, b.y - n.1));
        let q3 = tf_point(t, clamped_point(a.x - n.0, a.y - n.1));
        seq![
            Line { p0: q0, p1: q1 },
            Line { p0: q1, p1: q2 },
            Line { p0: q2, p1: q3 },
            Line { p0: q3, p1: q0 },
        ]
    }
}

/// The quads of a whole segment list.
pub open spec fn stroke_segs(segs: Seq<Line>, width: int, t: Affine) -> Seq<Line>
    decreases segs.len(),
{
    if segs.len() == 0 {
        Seq::empty()
    } else {
        stroke_segs(segs.drop_last(), width, t) + stroke_quad(
            segs.last().p0,
            segs.last().p1,
            width,
            t,
        )
    }
}

/// Emit the stroke quad of one segment.
fn emit_quad(out: &mut Vec<Line>, a: Point, b: Point, width: i64, transform: &Affine)
    requires
        a.wf(),
        b.wf(),
        transform.wf(),
        0 <= width <= crate::MAX_COORD,
    ensures
        final(out)@ =~= old(out)@ + stroke_quad(a, b, width as int, *transform),
        forall|k: int|
            old(out)@.len() <= k < final(out)@.len() ==> (#[trigger] final(out)@[k]).p0.wf()
                && final(out)@[k].p1.wf(),
{
    if a.x == b.x && a.y == b.y {
        return ;
    }
    let dx = b.x - a.x;
    let dy = b.y - a.y;
    proof {
        assert(0 <= dx as int * dx as int <= 0x100_0000_0000_0000 && 0 <= dy as int * dy as int
            <= 0x100_0000_0000_0000) by (nonlinear_arith)
            requires
                -0x1000_0000 <= dx <= 0x1000_0000 && -0x1000_0000 <= dy <= 0x1000_0000,
        ;
    }
    let n2 = (dx * dx + dy * dy) as u64;
    let len = isqrt(n2) as i64;
    proof {
        assert(n2 > 0) by (nonlinear_arith)
            requires
                n2 as int == dx as int * dx as int + dy as int * dy as int && !(dx == 0 && dy
                    == 0),
        ;
        assert(len > 0) by (nonlinear_arith)
            requires
                spec_isqrt(n2 as int, len as int) && n2 > 0 && len >= 0,
        ;
        assert(-0x2000_0000_0000_0000 < -(dy as int * ((width / 2) as int)) && -(dy as int * ((
        width / 2) as int)) < 0x2000_0000_0000_0000 && -0x2000_0000_0000_0000 < dx as int * ((
        width / 2) as int) && (dx as int * ((width / 2) as int)) < 0x2000_0000_0000_0000)
            by (nonlinear_arith)
            requires
                -0x1000_0000 <= dx <= 0x1000_0000 && -0x1000_0000 <= dy <= 0x1000_0000 && 0 <= (
                width / 2) as int <= 0x400_0000,
        ;
    }
    let hw = width / 2;
    proof {
        crate::line::lemma_div_magnitude(-(dy as int * hw as int), len as int);
        crate::line::lemma_div_magnitude(dx as int * hw as int, len as int);
    }
    let nx = crate::geom::floor_div(-(dy * hw), len);
    let ny = crate::geom::floor_div(dx * hw, len);
    let q0 = transform.apply(Point::new(a.x + nx, a.y + ny));
    let q1 = transform.apply(Point::new(b.x + nx, b.y + ny));
    let q2 = transform.apply(Point::new(b.x - nx, b.y - ny));
    let q3 = transform.apply(Point::new(a.x - nx, a.y - ny));
    out.push(Line { p0: q0, p1: q1 });
    out.push(Line { p0: q1, p1: q2 });
    out.push(Line { p0: q2, p1: q3 });
    out.push(Line { p0: q3, p1: q0 });
    proof {
        assert(a != b);
        assert(q0 == tf_point(*transform, clamped_point(a.x + nx as int, a.y + ny as int)));
        assert(final(out)@ =~= old(out)@ + stroke_quad(a, b, width as int, *transform));
    }
}

/// Flatten a stroked path: expand each segment into its stroke quad in the
/// path's own space and transform the quad to device space. Sub-paths close
/// only on an explicit close; open ends get butt caps.
pub fn stroke(path: &Path, width: i64, transform: Affine, out: &mut Vec<Line>)
    requires
        path.wf(),
        transform.wf(),
        0 <= width <= crate::MAX_COORD,
    ensures
        final(out)@ =~= old(out)@ + stroke_segs(
            raw_acc(path.view()).segs,
            width as int,
            transform,
        ),
        forall|k: int|
            old(out)@.len() <= k < final(out)@.len() ==> (#[trigger] final(out)@[k]).p0.wf()
                && final(out)@[k].p1.wf(),
{
    let ghost base = out@;
    let mut first = Point { x: 0, y: 0 };
    let mut last = Point { x: 0, y: 0 };
    let n = path.cmds.len();
    let mut i: usize = 0;
    while i < n
        invariant
            0 <= i <= n,
            n == path.view().len(),
            path.wf(),
            transform.wf(),
            0 <= width <= crate::MAX_COORD,
            first == raw_acc(path.view().take(i as int)).first,
            last == raw_acc(path.view().take(i as int)).last,
            out@ =~= base + stroke_segs(
                raw_acc(path.view().take(i as int)).segs,
                width as int,
                transform,
            ),
            first.wf(),
            last.wf(),
            forall|k: int|
                base.len() <= k < out@.len() ==> (#[trigger] out@[k]).p0.wf() && out@[k].p1.wf(),
        decreases n - i,
    {
        let cmd = path.cmds[i];
        proof {
            assert(path.view().take(i + 1).drop_last() =~= path.view().take(i as int));
            assert(path.view().take(i + 1).last() == path.view()[i as int]);
            assert(path.view()[i as int].wf());
        }
        let ghost segs_pre = raw_acc(path.view().take(i as int)).segs;
        match cmd {
            Command::Move(p) => {
                first = p;
                last = p;
            },
            Command::Line(p) => {
                emit_quad(out, last, p, width, &transform);
                proof {
                    let segs_post = raw_acc(path.view().take(i + 1)).segs;
                    assert(segs_post =~= segs_pre.push(Line { p0: last, p1: p }));
                    assert(segs_post.drop_last() =~= segs_pre);
                    assert(stroke_segs(segs_post, width as int, transform) =~= stroke_segs(
                        segs_pre,
                        width as int,
                        transform,
                    ) + stroke_quad(last, p, width as int, transform));
                }
                last = p;
            },
            Command::Close => {
                emit_quad(out, last, first, width, &transform);
                proof {
                    let segs_post = raw_acc(path.view().take(i + 1)).segs;
                    assert(segs_post =~= segs_pre.push(Line { p0: last, p1: first }));
                    assert(segs_post.drop_last() =~= segs_pre);
                    assert(stroke_segs(segs_post, width as int, transform) =~= stroke_segs(
                        segs_pre,
                        width as int,
                        transform,
                    ) + stroke_quad(last, first, width as int, transform));
                }
                last = first;
            },
        }
        i = i + 1;
    }
    proof {
        assert(path.view().take(n as int) =~= path.view());
    }
}

/// A path's flattening emits at most one segment per command.
pub proof fn lemma_flat_len(cmds: Seq<Command>, t: Affine)
    ensures
        flat_acc(cmds, t).segs.len() <= cmds.len(),
        fill_segs(cmds, t).len() <= cmds.len() + 1,
    decreases cmds.len(),
{
    if cmds.len() > 0 {
        lemma_flat_len(cmds.drop_last(), t);
    }
}

/// Stroking emits at most four segments per input segment.
pub proof fn lemma_stroke_len(segs: Seq<Line>, width: int, t: Affine)
    ensures
        stroke_segs(segs, width, t).len() <= 4 * segs.len(),
    decreases segs.len(),
{
    if segs.len() > 0 {
        lemma_stroke_len(segs.drop_last(), width, t);
    }
}

/// The untransformed flattening emits at most one segment per command.
pub proof fn lemma_raw_len(cmds: Seq<Command>)
    ensures
        raw_acc(cmds).segs.len() <= cmds.len(),
    decreases cmds.len(),
{
    if cmds.len() > 0 {
        lemma_raw_len(cmds.drop_last());
    }
}

} // verus!
