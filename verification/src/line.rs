//! Walking a line segment across the pixel grid.
//!
//! `add_line` cuts a segment into slices, one per pixel the segment passes
//! through, row by row and column by column. Each slice emits one delta: its
//! signed `height` (positive when the segment descends) and the `area` to the
//! right of the slice within the pixel. Crossing positions are computed by
//! exact integer division, so the emitted deltas are a pure function of the
//! endpoints — reversing a segment negates its deltas exactly, and
//! translating it by whole pixels translates them.

use vstd::prelude::*;

use vstd::arithmetic::div_mod::lemma_div_is_ordered;
use vstd::arithmetic::div_mod::lemma_fundamental_div_mod;

use crate::covmath::iabs;
use crate::covmath::spec_imax;
use crate::covmath::spec_imin;
use crate::geom::floor_div;
use crate::geom::Point;
use crate::raster::delta_contrib;
use crate::raster::delta_marks;
use crate::raster::Rasterizer;
use crate::raster::LINE_OPS_MAX;
use crate::raster::MAX_DIM;
use crate::raster::OPS_MAX;
use crate::COV_ONE;
use crate::MAX_COORD;

verus! {

/// One coverage delta, ready for `Rasterizer::add_delta`: pixel column and
/// row, then height and area in coverage units.
#[derive(Clone, Copy, PartialEq, Eq, Structural, Debug)]
pub struct Delta {
    pub x: i64,
    pub y: i64,
    pub h: i64,
    pub a: i64,
}

/// The mathematical value of a delta.
pub struct DeltaS {
    pub x: int,
    pub y: int,
    pub h: int,
    pub a: int,
}

impl Delta {
    pub open spec fn s(self) -> DeltaS {
        DeltaS { x: self.x as int, y: self.y as int, h: self.h as int, a: self.a as int }
    }
}

/// The mathematical values of a list of deltas.
pub open spec fn deltas_view(s: Seq<Delta>) -> Seq<DeltaS> {
    s.map_values(|d: Delta| d.s())
}

pub open spec fn spec_iclamp(v: int, lo: int, hi: int) -> int {
    spec_imax(lo, spec_imin(v, hi))
}

/// Floor division by a nonzero divisor of either sign.
pub open spec fn spec_fdiv(n: int, d: int) -> int {
    if d > 0 {
        n / d
    } else {
        (-n) / (-d)
    }
}

/// The x position where the segment from `(ax, ay)` to `(bx, byy)` (with
/// `ay < byy`) crosses the horizontal line at `t`, rounded down.
pub open spec fn x_at(ax: int, ay: int, bx: int, byy: int, t: int) -> int {
    ax + (bx - ax) * (t - ay) / (byy - ay)
}

/// The t position where that segment crosses the vertical line at `x`
/// (needs `bx != ax`), rounded down.
pub open spec fn t_at(ax: int, ay: int, bx: int, byy: int, x: int) -> int {
    ay + spec_fdiv((byy - ay) * (x - ax), bx - ax)
}

/// The delta of one slice: column `c`, row `r`, winding `sgn`, vertical
/// extent `ta..tb` and x offsets `xo1`, `xo2` within the pixel (fixed-point,
/// 0 at the pixel's left edge). The area is the part of the pixel to the
/// right of the slice's midpoint, which a prefix sum then carries rightward.
pub open spec fn mk_op(c: int, r: int, sgn: int, ta: int, tb: int, xo1: int, xo2: int) -> DeltaS {
    DeltaS {
        x: c,
        y: r,
        h: 512 * sgn * (tb - ta),
        a: sgn * (tb - ta) * (512 - xo1 - xo2),
    }
}

/// The slices of one row, walking columns from `c` to `c1`. `tcur`/`xcur` is
/// the point where the segment enters column `c`; `t1`/`xe` where it leaves
/// the row. Boundary crossing positions are clamped into the remaining span,
/// so the heights always telescope to exactly `t1 - t0`.
pub open spec fn cols_ops(
    ax: int,
    ay: int,
    bx: int,
    byy: int,
    sgn: int,
    r: int,
    t1: int,
    xe: int,
    c1: int,
    c: int,
    tcur: int,
    xcur: int,
) -> Seq<DeltaS>
    decreases iabs(c1 - c),
{
    if c == c1 {
        seq![mk_op(c, r, sgn, tcur, t1, xcur - 256 * c, xe - 256 * c)]
    } else if c < c1 {
        let bxx = 256 * (c + 1);
        let tb = spec_iclamp(t_at(ax, ay, bx, byy, bxx), tcur, t1);
        seq![mk_op(c, r, sgn, tcur, tb, xcur - 256 * c, bxx - 256 * c)] + cols_ops(
            ax,
            ay,
            bx,
            byy,
            sgn,
            r,
            t1,
            xe,
            c1,
            c + 1,
            tb,
            bxx,
        )
    } else {
        let bxx = 256 * c;
        let tb = spec_iclamp(t_at(ax, ay, bx, byy, bxx), tcur, t1);
        seq![mk_op(c, r, sgn, tcur, tb, xcur - 256 * c, bxx - 256 * c)] + cols_ops(
            ax,
            ay,
            bx,
            byy,
            sgn,
            r,
            t1,
            xe,
            c1,
            c - 1,
            tb,
            bxx,
        )
    }
}

/// The slices the segment leaves in row `r`.
pub open spec fn row_ops(
    ax: int,
    ay: int,
    bx: int,
    byy: int,
    sgn: int,
    ylo: int,
    yhi: int,
    r: int,
) -> Seq<DeltaS> {
    let t0 = spec_imax(ylo, 256 * r);
    let t1 = spec_imin(yhi, 256 * r + 256);
    let xs = x_at(ax, ay, bx, byy, t0);
    let xe = x_at(ax, ay, bx, byy, t1);
    cols_ops(ax, ay, bx, byy, sgn, r, t1, xe, xe / 256, xs / 256, t0, xs)
}

/// The slices of rows `r..=r1`.
pub open spec fn rows_ops(
    ax: int,
    ay: int,
    bx: int,
    byy: int,
    sgn: int,
    ylo: int,
    yhi: int,
    r: int,
    r1: int,
) -> Seq<DeltaS>
    decreases r1 + 1 - r,
{
    if r > r1 {
        Seq::empty()
    } else {
        row_ops(ax, ay, bx, byy, sgn, ylo, yhi, r) + rows_ops(
            ax,
            ay,
            bx,
            byy,
            sgn,
            ylo,
            yhi,
            r + 1,
            r1,
        )
    }
}

/// Every delta `add_line(p0, p1)` emits on a raster `hpx` rows tall: the
/// segment is ordered by increasing y (the winding sign remembers the
/// original direction), clipped to the raster's vertical extent, and cut
/// row by row. A horizontal segment emits nothing.
pub open spec fn line_ops(p0: Point, p1: Point, hpx: int) -> Seq<DeltaS> {
    if p0.y == p1.y {
        Seq::empty()
    } else {
        let sgn: int = if p0.y < p1.y {
            1
        } else {
            -1
        };
        let ax: int = if p0.y < p1.y {
            p0.x as int
        } else {
            p1.x as int
        };
        let ay: int = if p0.y < p1.y {
            p0.y as int
        } else {
            p1.y as int
        };
        let bx: int = if p0.y < p1.y {
            p1.x as int
        } else {
            p0.x as int
        };
        let byy: int = if p0.y < p1.y {
            p1.y as int
        } else {
            p0.y as int
        };
        let ylo = spec_imax(ay, 0);
        let yhi = spec_imin(byy, 256 * hpx);
        if ylo >= yhi {
            Seq::empty()
        } else {
            rows_ops(ax, ay, bx, byy, sgn, ylo, yhi, ylo / 256, (yhi - 1) / 256)
        }
    }
}

/// What a list of deltas adds, in total, to the coverage entry at `(yy, xx)`
/// of a `w` by `h` raster.
pub open spec fn ops_contrib(s: Seq<DeltaS>, w: int, h: int, yy: int, xx: int) -> int
    decreases s.len(),
{
    if s.len() == 0 {
        0
    } else {
        ops_contrib(s.drop_last(), w, h, yy, xx) + delta_contrib(
            s.last().x,
            s.last().y,
            s.last().h,
            s.last().a,
            w,
            h,
            yy,
            xx,
        )
    }
}

/// The total coverage change `add_line(p0, p1)` makes at `(yy, xx)`.
pub open spec fn line_contrib(p0: Point, p1: Point, w: int, h: int, yy: int, xx: int) -> int {
    ops_contrib(line_ops(p0, p1, h), w, h, yy, xx)
}

/// The cells a list of deltas marks: the union of each delta's marks.
pub open spec fn ops_marks(s: Seq<DeltaS>, w: int, h: int) -> Set<(int, int)>
    decreases s.len(),
{
    if s.len() == 0 {
        Set::empty()
    } else {
        ops_marks(s.drop_last(), w, h).union(
            delta_marks(s.last().x, s.last().y, s.last().h, s.last().a, w, h),
        )
    }
}

/// The cells `add_line(p0, p1)` marks on a `w` by `h` raster: exactly the
/// cells that receive a nonzero delta from the segment.
pub open spec fn line_marks(p0: Point, p1: Point, w: int, h: int) -> Set<(int, int)> {
    ops_marks(line_ops(p0, p1, h), w, h)
}

/// A delta small enough for `add_delta`: height within one pixel's coverage,
/// area under the height and of the same sign, coordinates in range.
pub open spec fn op_ok(d: DeltaS) -> bool {
    &&& -COV_ONE <= d.h <= COV_ONE
    &&& ((0 <= d.a <= d.h) || (d.h <= d.a <= 0))
    &&& -0x20_0000 <= d.x <= 0x20_0000
    &&& 0 <= d.y <= 0x20_0000
}

pub open spec fn ops_ok(s: Seq<DeltaS>) -> bool {
    forall|i: int| 0 <= i < s.len() ==> op_ok(#[trigger] s[i])
}

/// A slice's delta is well-formed when its vertical extent is at most one
/// pixel and its x offsets lie within the pixel.
proof fn lemma_mk_op_ok(c: int, r: int, sgn: int, ta: int, tb: int, xo1: int, xo2: int)
    requires
        sgn == 1 || sgn == -1,
        0 <= tb - ta <= 256,
        0 <= xo1 <= 256,
        0 <= xo2 <= 256,
        -0x20_0000 <= c <= 0x20_0000,
        0 <= r <= 0x20_0000,
    ensures
        op_ok(mk_op(c, r, sgn, ta, tb, xo1, xo2)),
{
    let dt = tb - ta;
    let sp = 512 - xo1 - xo2;
    let d = mk_op(c, r, sgn, ta, tb, xo1, xo2);
    assert(0 <= dt * sp <= dt * 512 && dt * 512 <= 512 * 256 && dt * 512 == 512 * dt)
        by (nonlinear_arith)
        requires
            0 <= dt <= 256 && 0 <= sp <= 512,
    ;
    if sgn == 1 {
        assert(d.h == 512 * dt && d.a == dt * sp) by (nonlinear_arith)
            requires
                sgn == 1 && dt == tb - ta && sp == 512 - xo1 - xo2 && d.h == 512 * sgn * (tb - ta)
                    && d.a == sgn * (tb - ta) * (512 - xo1 - xo2),
        ;
    } else {
        assert(d.h == -(512 * dt) && d.a == -(dt * sp)) by (nonlinear_arith)
            requires
                sgn == -1 && dt == tb - ta && sp == 512 - xo1 - xo2 && d.h == 512 * sgn * (tb - ta)
                    && d.a == sgn * (tb - ta) * (512 - xo1 - xo2),
        ;
    }
}

/// Every delta of one row's walk is well-formed, and the walk emits exactly
/// one delta per column it crosses.
proof fn lemma_cols_props(
    ax: int,
    ay: int,
    bx: int,
    byy: int,
    sgn: int,
    r: int,
    t1: int,
    xe: int,
    c1: int,
    c: int,
    tcur: int,
    xcur: int,
)
    requires
        sgn == 1 || sgn == -1,
        tcur <= t1,
        t1 - tcur <= 256,
        256 * c <= xcur <= 256 * c + 256,
        256 * c1 <= xe <= 256 * c1 + 256,
        -0x20_0000 <= c <= 0x20_0000,
        -0x20_0000 <= c1 <= 0x20_0000,
        0 <= r <= 0x20_0000,
    ensures
        ops_ok(cols_ops(ax, ay, bx, byy, sgn, r, t1, xe, c1, c, tcur, xcur)),
        cols_ops(ax, ay, bx, byy, sgn, r, t1, xe, c1, c, tcur, xcur).len() == iabs(c1 - c) + 1,
    decreases iabs(c1 - c),
{
    let s = cols_ops(ax, ay, bx, byy, sgn, r, t1, xe, c1, c, tcur, xcur);
    if c == c1 {
        lemma_mk_op_ok(c, r, sgn, tcur, t1, xcur - 256 * c, xe - 256 * c);
        assert(s.len() == 1);
        assert(forall|i: int| 0 <= i < s.len() ==> op_ok(#[trigger] s[i]));
    } else if c < c1 {
        let bxx = 256 * (c + 1);
        let tb = spec_iclamp(t_at(ax, ay, bx, byy, bxx), tcur, t1);
        lemma_mk_op_ok(c, r, sgn, tcur, tb, xcur - 256 * c, bxx - 256 * c);
        lemma_cols_props(ax, ay, bx, byy, sgn, r, t1, xe, c1, c + 1, tb, bxx);
        let rest = cols_ops(ax, ay, bx, byy, sgn, r, t1, xe, c1, c + 1, tb, bxx);
        assert(s == seq![mk_op(c, r, sgn, tcur, tb, xcur - 256 * c, bxx - 256 * c)] + rest);
        assert(forall|i: int| 1 <= i < s.len() ==> s[i] == rest[i - 1]);
        assert(forall|i: int| 0 <= i < s.len() ==> op_ok(#[trigger] s[i]));
    } else {
        let bxx = 256 * c;
        let tb = spec_iclamp(t_at(ax, ay, bx, byy, bxx), tcur, t1);
        lemma_mk_op_ok(c, r, sgn, tcur, tb, xcur - 256 * c, bxx - 256 * c);
        lemma_cols_props(ax, ay, bx, byy, sgn, r, t1, xe, c1, c - 1, tb, bxx);
        let rest = cols_ops(ax, ay, bx, byy, sgn, r, t1, xe, c1, c - 1, tb, bxx);
        assert(s == seq![mk_op(c, r, sgn, tcur, tb, xcur - 256 * c, bxx - 256 * c)] + rest);
        assert(forall|i: int| 1 <= i < s.len() ==> s[i] == rest[i - 1]);
        assert(forall|i: int| 0 <= i < s.len() ==> op_ok(#[trigger] s[i]));
    }
}

/// The crossing position stays between the segment's endpoints.
proof fn lemma_x_at_bounds(ax: int, ay: int, bx: int, byy: int, t: int)
    requires
        ay < byy,
        ay <= t <= byy,
    ensures
        spec_imin(ax, bx) <= x_at(ax, ay, bx, byy, t) <= spec_imax(ax, bx),
{
    let dx = bx - ax;
    let dy = byy - ay;
    let num = dx * (t - ay);
    vstd::arithmetic::div_mod::lemma_div_multiples_vanish(dx, dy);
    assert(dx * dy == dy * dx) by (nonlinear_arith);
    if dx >= 0 {
        assert(0 <= num <= dx * dy) by (nonlinear_arith)
            requires
                num == dx * (t - ay) && dx >= 0 && 0 <= t - ay <= dy,
        ;
        vstd::arithmetic::div_mod::lemma_div_pos_is_pos(num, dy);
        lemma_div_is_ordered(num, dx * dy, dy);
    } else {
        assert(dx * dy <= num <= 0) by (nonlinear_arith)
            requires
                num == dx * (t - ay) && dx < 0 && 0 <= t - ay <= dy,
        ;
        lemma_div_is_ordered(dx * dy, num, dy);
        lemma_div_is_ordered(num, 0, dy);
        assert(0int / dy == 0) by (nonlinear_arith)
            requires
                dy > 0,
        ;
    }
}

/// The crossing position is monotone along the segment, in the direction the
/// segment leans.
proof fn lemma_x_at_monotone(ax: int, ay: int, bx: int, byy: int, t: int, tt: int)
    requires
        ay < byy,
        t <= tt,
    ensures
        bx >= ax ==> x_at(ax, ay, bx, byy, t) <= x_at(ax, ay, bx, byy, tt),
        bx <= ax ==> x_at(ax, ay, bx, byy, t) >= x_at(ax, ay, bx, byy, tt),
{
    let dx = bx - ax;
    let dy = byy - ay;
    if dx >= 0 {
        assert(dx * (t - ay) <= dx * (tt - ay)) by (nonlinear_arith)
            requires
                dx >= 0 && t <= tt,
        ;
        lemma_div_is_ordered(dx * (t - ay), dx * (tt - ay), dy);
    }
    if dx <= 0 {
        assert(dx * (tt - ay) <= dx * (t - ay)) by (nonlinear_arith)
            requires
                dx <= 0 && t <= tt,
        ;
        lemma_div_is_ordered(dx * (tt - ay), dx * (t - ay), dy);
    }
}

/// Division by 256 keeps order.
proof fn lemma_div256_ordered(a: int, b: int)
    requires
        a <= b,
    ensures
        a / 256 <= b / 256,
{
    lemma_div_is_ordered(a, b, 256);
}

/// A value sits inside the 256-wide band of its quotient.
proof fn lemma_div256_band(a: int)
    ensures
        256 * (a / 256) <= a <= 256 * (a / 256) + 255,
{
    lemma_fundamental_div_mod(a, 256);
}

/// The preconditions one row's walk needs, and what it guarantees: every
/// delta well-formed, and one delta per column crossed.
proof fn lemma_row_props(
    ax: int,
    ay: int,
    bx: int,
    byy: int,
    sgn: int,
    ylo: int,
    yhi: int,
    r: int,
    r1: int,
)
    requires
        sgn == 1 || sgn == -1,
        ay < byy,
        -MAX_COORD <= ax <= MAX_COORD,
        -MAX_COORD <= bx <= MAX_COORD,
        ay <= ylo < yhi <= byy,
        0 <= ylo,
        yhi <= 0x100_0000,
        ylo / 256 <= r <= r1,
        r1 == (yhi - 1) / 256,
    ensures
        ops_ok(row_ops(ax, ay, bx, byy, sgn, ylo, yhi, r)),
        row_ops(ax, ay, bx, byy, sgn, ylo, yhi, r).len() == iabs(
            x_at(ax, ay, bx, byy, spec_imin(yhi, 256 * r + 256)) / 256 - x_at(
                ax,
                ay,
                bx,
                byy,
                spec_imax(ylo, 256 * r),
            ) / 256,
        ) + 1,
        spec_imax(ylo, 256 * r) <= spec_imin(yhi, 256 * r + 256),
{
    let t0 = spec_imax(ylo, 256 * r);
    let t1 = spec_imin(yhi, 256 * r + 256);
    lemma_div256_band(ylo);
    lemma_div256_band(yhi - 1);
    lemma_div256_ordered(ylo, 256 * r + 255);
    assert(ylo <= 256 * r + 255) by {
        assert(256 * (ylo / 256) <= 256 * r) by (nonlinear_arith)
            requires
                ylo / 256 <= r,
        ;
    }
    assert(256 * r <= yhi - 1) by {
        assert(256 * r <= 256 * r1) by (nonlinear_arith)
            requires
                r <= r1,
        ;
    }
    assert(t0 <= t1);
    assert(t1 - t0 <= 256);
    assert(ay <= t0 && t1 <= byy);
    let xs = x_at(ax, ay, bx, byy, t0);
    let xe = x_at(ax, ay, bx, byy, t1);
    lemma_x_at_bounds(ax, ay, bx, byy, t0);
    lemma_x_at_bounds(ax, ay, bx, byy, t1);
    lemma_div256_band(xs);
    lemma_div256_band(xe);
    lemma_div256_ordered(-0x400_0000, xs);
    lemma_div256_ordered(xs, 0x400_0000);
    lemma_div256_ordered(-0x400_0000, xe);
    lemma_div256_ordered(xe, 0x400_0000);
    lemma_cols_props(ax, ay, bx, byy, sgn, r, t1, xe, xe / 256, xs / 256, t0, xs);
}

/// All deltas of rows `r..=r1` are well-formed, and since the column walks
/// of consecutive rows chain (one ends exactly where the next begins), the
/// total count telescopes to the rows plus the columns spanned.
proof fn lemma_rows_props(
    ax: int,
    ay: int,
    bx: int,
    byy: int,
    sgn: int,
    ylo: int,
    yhi: int,
    r: int,
    r1: int,
)
    requires
        sgn == 1 || sgn == -1,
        ay < byy,
        -MAX_COORD <= ax <= MAX_COORD,
        -MAX_COORD <= bx <= MAX_COORD,
        ay <= ylo < yhi <= byy,
        0 <= ylo,
        yhi <= 0x100_0000,
        ylo / 256 <= r <= r1,
        r1 == (yhi - 1) / 256,
    ensures
        ops_ok(rows_ops(ax, ay, bx, byy, sgn, ylo, yhi, r, r1)),
        rows_ops(ax, ay, bx, byy, sgn, ylo, yhi, r, r1).len() <= (r1 - r + 1) + iabs(
            x_at(ax, ay, bx, byy, yhi) / 256 - x_at(ax, ay, bx, byy, spec_imax(ylo, 256 * r))
                / 256,
        ),
    decreases r1 - r,
{
    lemma_row_props(ax, ay, bx, byy, sgn, ylo, yhi, r, r1);
    let row = row_ops(ax, ay, bx, byy, sgn, ylo, yhi, r);
    let whole = rows_ops(ax, ay, bx, byy, sgn, ylo, yhi, r, r1);
    let t0 = spec_imax(ylo, 256 * r);
    let cs = x_at(ax, ay, bx, byy, t0) / 256;
    let ce = x_at(ax, ay, bx, byy, yhi) / 256;
    lemma_div256_band(yhi - 1);
    if r == r1 {
        assert(yhi <= 256 * r1 + 256) by {
            assert(256 * r1 <= yhi - 1);
        }
        assert(spec_imin(yhi, 256 * r + 256) == yhi);
        assert(whole =~= row + rows_ops(ax, ay, bx, byy, sgn, ylo, yhi, r + 1, r1));
        assert(rows_ops(ax, ay, bx, byy, sgn, ylo, yhi, r + 1, r1) =~= Seq::<DeltaS>::empty());
        assert(whole =~= row);
        assert forall|i: int| 0 <= i < whole.len() implies op_ok(#[trigger] whole[i]) by {
            assert(whole[i] == row[i]);
        }
    } else {
        // The next boundary: row r ends at 256*(r+1), where row r+1 begins.
        assert(256 * (r + 1) <= 256 * r1) by (nonlinear_arith)
            requires
                r + 1 <= r1,
        ;
        assert(256 * r1 <= yhi - 1);
        let tmid = 256 * (r + 1);
        assert(spec_imin(yhi, 256 * r + 256) == tmid);
        assert(ylo <= 256 * r + 255);
        assert(spec_imax(ylo, 256 * (r + 1)) == tmid);
        let cm = x_at(ax, ay, bx, byy, tmid) / 256;
        assert(row.len() == iabs(cm - cs) + 1);
        lemma_rows_props(ax, ay, bx, byy, sgn, ylo, yhi, r + 1, r1);
        let rest = rows_ops(ax, ay, bx, byy, sgn, ylo, yhi, r + 1, r1);
        assert(rest.len() <= (r1 - r) + iabs(ce - cm));
        // Monotone crossings collapse the two spans into one.
        lemma_x_at_monotone(ax, ay, bx, byy, t0, tmid);
        lemma_x_at_monotone(ax, ay, bx, byy, tmid, yhi);
        if bx >= ax {
            lemma_div256_ordered(x_at(ax, ay, bx, byy, t0), x_at(ax, ay, bx, byy, tmid));
            lemma_div256_ordered(x_at(ax, ay, bx, byy, tmid), x_at(ax, ay, bx, byy, yhi));
        } else {
            lemma_div256_ordered(x_at(ax, ay, bx, byy, tmid), x_at(ax, ay, bx, byy, t0));
            lemma_div256_ordered(x_at(ax, ay, bx, byy, yhi), x_at(ax, ay, bx, byy, tmid));
        }
        assert(iabs(cm - cs) + iabs(ce - cm) == iabs(ce - cs));
        assert(whole == row + rest);
        assert forall|i: int| 0 <= i < whole.len() implies op_ok(#[trigger] whole[i]) by {
            if i < row.len() {
                assert(whole[i] == row[i]);
            } else {
                assert(whole[i] == rest[i - row.len()]);
            }
        }
    }
}

/// Every delta a segment emits is small enough for `add_delta`, and one
/// segment stays within the per-segment delta budget.
pub proof fn lemma_line_ops_props(p0: Point, p1: Point, hpx: int)
    requires
        p0.wf(),
        p1.wf(),
        0 <= hpx <= MAX_DIM,
    ensures
        ops_ok(line_ops(p0, p1, hpx)),
        line_ops(p0, p1, hpx).len() <= LINE_OPS_MAX,
{
    if p0.y == p1.y {
        return ;
    }
    let sgn: int = if p0.y < p1.y {
        1int
    } else {
        -1int
    };
    let ax: int = if p0.y < p1.y {
        p0.x as int
    } else {
        p1.x as int
    };
    let ay: int = if p0.y < p1.y {
        p0.y as int
    } else {
        p1.y as int
    };
    let bx: int = if p0.y < p1.y {
        p1.x as int
    } else {
        p0.x as int
    };
    let byy: int = if p0.y < p1.y {
        p1.y as int
    } else {
        p0.y as int
    };
    let ylo = spec_imax(ay, 0);
    let yhi = spec_imin(byy, 256 * hpx);
    if ylo >= yhi {
        return ;
    }
    let r0 = ylo / 256;
    let r1 = (yhi - 1) / 256;
    lemma_div256_ordered(ylo, yhi - 1);
    vstd::arithmetic::div_mod::lemma_div_pos_is_pos(ylo, 256);
    lemma_div256_band(yhi - 1);
    assert(256 * hpx <= 0x100_0000) by (nonlinear_arith)
        requires
            hpx <= MAX_DIM,
    ;
    lemma_rows_props(ax, ay, bx, byy, sgn, ylo, yhi, r0, r1);
    assert(r1 <= 0x1_0000) by {
        lemma_div256_ordered(yhi - 1, 0x100_0000);
    }
    let cs = x_at(ax, ay, bx, byy, spec_imax(ylo, 256 * r0)) / 256;
    let ce = x_at(ax, ay, bx, byy, yhi) / 256;
    lemma_div256_band(ylo);
    assert(spec_imax(ylo, 256 * r0) == ylo);
    lemma_x_at_bounds(ax, ay, bx, byy, ylo);
    lemma_x_at_bounds(ax, ay, bx, byy, yhi);
    lemma_div256_ordered(-0x400_0000, x_at(ax, ay, bx, byy, ylo));
    lemma_div256_ordered(x_at(ax, ay, bx, byy, ylo), 0x400_0000);
    lemma_div256_ordered(-0x400_0000, x_at(ax, ay, bx, byy, yhi));
    lemma_div256_ordered(x_at(ax, ay, bx, byy, yhi), 0x400_0000);
    assert(iabs(ce - cs) <= 0x8_0000);
}

/// A quotient is no larger in magnitude than its dividend (plus one for the
/// rounding of negatives).
pub proof fn lemma_div_magnitude(n: int, d: int)
    requires
        d >= 1,
    ensures
        -iabs(n) - 1 <= n / d <= iabs(n),
{
    lemma_fundamental_div_mod(n, d);
    let q = n / d;
    let r = n % d;
    assert(-iabs(n) - 1 <= q <= iabs(n)) by (nonlinear_arith)
        requires
            n == d * q + r && 0 <= r < d && d >= 1,
    ;
}

/// Floor division by a nonzero divisor of either sign.
fn ediv(n: i64, d: i64) -> (q: i64)
    requires
        d != 0,
        -0x2000_0000_0000_0000 < n < 0x2000_0000_0000_0000,
        -0x2000_0000_0000_0000 < d < 0x2000_0000_0000_0000,
    ensures
        q as int == spec_fdiv(n as int, d as int),
        -iabs(n as int) - 1 <= q as int <= iabs(n as int),
{
    proof {
        if d > 0 {
            lemma_div_magnitude(n as int, d as int);
        } else {
            lemma_div_magnitude(-(n as int), -(d as int));
        }
    }
    if d > 0 {
        floor_div(n, d)
    } else {
        floor_div(-n, -d)
    }
}

/// Where the segment crosses the horizontal line at `t`.
fn x_at_exec(ax: i64, ay: i64, bx: i64, byy: i64, t: i64) -> (x: i64)
    requires
        ay < byy,
        -MAX_COORD <= ax <= MAX_COORD,
        -MAX_COORD <= bx <= MAX_COORD,
        -MAX_COORD <= ay <= MAX_COORD,
        -MAX_COORD <= byy <= MAX_COORD,
        ay <= t <= byy,
    ensures
        x as int == x_at(ax as int, ay as int, bx as int, byy as int, t as int),
        spec_imin(ax as int, bx as int) <= x as int <= spec_imax(ax as int, bx as int),
{
    proof {
        assert(-0x1000_0000_0000_0000 < (bx - ax) as int * (t - ay) as int && ((bx - ax) as int
            * (t - ay) as int) < 0x1000_0000_0000_0000) by (nonlinear_arith)
            requires
                -0x1000_0000 <= (bx - ax) as int <= 0x1000_0000 && 0 <= (t - ay) as int
                    <= 0x1000_0000,
        ;
        lemma_x_at_bounds(ax as int, ay as int, bx as int, byy as int, t as int);
    }
    let q = floor_div((bx - ax) * (t - ay), byy - ay);
    ax + q
}

/// Where the segment crosses the vertical line at `x`.
fn t_at_exec(ax: i64, ay: i64, bx: i64, byy: i64, x: i64) -> (t: i64)
    requires
        bx != ax,
        -MAX_COORD <= ax <= MAX_COORD,
        -MAX_COORD <= bx <= MAX_COORD,
        -MAX_COORD <= ay <= MAX_COORD,
        -MAX_COORD <= byy <= MAX_COORD,
        -0x1000_0000 <= x <= 0x1000_0000,
    ensures
        t as int == t_at(ax as int, ay as int, bx as int, byy as int, x as int),
{
    proof {
        assert(-0x1000_0000_0000_0000 < (byy - ay) as int * (x - ax) as int && ((byy - ay) as int
            * (x - ax) as int) < 0x1000_0000_0000_0000) by (nonlinear_arith)
            requires
                -0x1000_0000 <= (byy - ay) as int <= 0x1000_0000 && -0x2000_0000 <= (x - ax) as int
                    <= 0x2000_0000,
        ;
    }
    let q = ediv((byy - ay) * (x - ax), bx - ax);
    ay + q
}

/// Build one slice's delta from its extent and offsets.
fn mk_delta(c: i64, r: i64, sgn: i64, dt: i64, xo1: i64, xo2: i64) -> (d: Delta)
    requires
        sgn == 1 || sgn == -1,
        0 <= dt <= 256,
        0 <= xo1 <= 256,
        0 <= xo2 <= 256,
    ensures
        d.x == c,
        d.y == r,
        d.h as int == 512 * (sgn as int) * (dt as int),
        d.a as int == (sgn as int) * (dt as int) * ((512 - xo1 - xo2) as int),
{
    proof {
        assert(0 <= (dt as int) * ((512 - xo1 - xo2) as int) && ((dt as int) * ((512 - xo1
            - xo2) as int)) <= 0x2_0000) by (nonlinear_arith)
            requires
                0 <= dt as int <= 256 && 0 <= (512 - xo1 - xo2) as int <= 512,
        ;
        assert(512 * (sgn as int) * (dt as int) == (if sgn == 1 {
            512 * (dt as int)
        } else {
            -(512 * (dt as int))
        })) by (nonlinear_arith)
            requires
                sgn == 1 || sgn == -1,
        ;
        assert((sgn as int) * (dt as int) * ((512 - xo1 - xo2) as int) == (if sgn == 1 {
            (dt as int) * ((512 - xo1 - xo2) as int)
        } else {
            -((dt as int) * ((512 - xo1 - xo2) as int))
        })) by (nonlinear_arith)
            requires
                sgn == 1 || sgn == -1,
        ;
    }
    let sp = 512 - xo1 - xo2;
    let am = dt * sp;
    let h: i64 = if sgn == 1 {
        512 * dt
    } else {
        -(512 * dt)
    };
    let a: i64 = if sgn == 1 {
        am
    } else {
        -am
    };
    Delta { x: c, y: r, h, a }
}

/// Emit the deltas of one row of the walk: exactly `row_ops` of that row.
fn emit_row(
    ops: &mut Vec<Delta>,
    ax: i64,
    ay: i64,
    bx: i64,
    byy: i64,
    sgn: i64,
    r: i64,
    ylo: i64,
    yhi: i64,
)
    requires
        sgn == 1 || sgn == -1,
        ay < byy,
        -MAX_COORD <= ax <= MAX_COORD,
        -MAX_COORD <= bx <= MAX_COORD,
        -MAX_COORD <= ay <= MAX_COORD,
        -MAX_COORD <= byy <= MAX_COORD,
        ay <= ylo < yhi <= byy,
        0 <= ylo,
        yhi <= 0x100_0000,
        ylo as int / 256 <= r as int <= (yhi - 1) as int / 256,
    ensures
        deltas_view(final(ops)@) =~= deltas_view(old(ops)@) + row_ops(
            ax as int,
            ay as int,
            bx as int,
            byy as int,
            sgn as int,
            ylo as int,
            yhi as int,
            r as int,
        ),
{
    let ghost base = deltas_view(old(ops)@);
    let ghost row = row_ops(
        ax as int,
        ay as int,
        bx as int,
        byy as int,
        sgn as int,
        ylo as int,
        yhi as int,
        r as int,
    );
    proof {
        lemma_row_props(
            ax as int,
            ay as int,
            bx as int,
            byy as int,
            sgn as int,
            ylo as int,
            yhi as int,
            r as int,
            (yhi - 1) as int / 256,
        );
        lemma_div256_band(ylo as int);
        lemma_div256_band((yhi - 1) as int);
        assert(256 * (ylo as int / 256) <= 256 * r as int && 256 * r as int <= 256 * ((yhi
            - 1) as int / 256)) by (nonlinear_arith)
            requires
                ylo as int / 256 <= r as int <= (yhi - 1) as int / 256,
        ;
    }
    let t0 = if ylo >= 256 * r {
        ylo
    } else {
        256 * r
    };
    let t1 = if yhi <= 256 * r + 256 {
        yhi
    } else {
        256 * r + 256
    };
    let xs = x_at_exec(ax, ay, bx, byy, t0);
    let xe = x_at_exec(ax, ay, bx, byy, t1);
    let c0 = floor_div(xs, 256);
    let c1 = floor_div(xe, 256);
    proof {
        lemma_div256_band(xs as int);
        lemma_div256_band(xe as int);
        lemma_div256_ordered(-0x400_0000, xs as int);
        lemma_div256_ordered(xs as int, 0x400_0000);
        lemma_div256_ordered(-0x400_0000, xe as int);
        lemma_div256_ordered(xe as int, 0x400_0000);
    }
    let mut c = c0;
    let mut tcur = t0;
    let mut xcur = xs;
    while c != c1
        invariant
            sgn == 1 || sgn == -1,
            ay < byy,
            -MAX_COORD <= ax <= MAX_COORD,
            -MAX_COORD <= bx <= MAX_COORD,
            -MAX_COORD <= ay <= MAX_COORD,
            -MAX_COORD <= byy <= MAX_COORD,
            0 <= r,
            r <= 0x1_0000,
            ay <= t0 <= t1 <= byy,
            t1 - t0 <= 256,
            t0 <= tcur <= t1,
            256 * c as int <= xcur as int <= 256 * c as int + 256,
            256 * c1 as int <= xe as int <= 256 * c1 as int + 255,
            -0x4_0001 <= c0 <= 0x4_0001,
            -0x4_0001 <= c1 <= 0x4_0001,
            spec_imin(c0 as int, c1 as int) <= c as int <= spec_imax(c0 as int, c1 as int),
            xs as int == x_at(ax as int, ay as int, bx as int, byy as int, t0 as int),
            xe as int == x_at(ax as int, ay as int, bx as int, byy as int, t1 as int),
            c0 as int == xs as int / 256,
            c1 as int == xe as int / 256,
            base + row =~= deltas_view(ops@) + cols_ops(
                ax as int,
                ay as int,
                bx as int,
                byy as int,
                sgn as int,
                r as int,
                t1 as int,
                xe as int,
                c1 as int,
                c as int,
                tcur as int,
                xcur as int,
            ),
        decreases iabs(c1 as int - c as int),
    {
        proof {
            if bx == ax {
                assert((bx - ax) as int * (t0 - ay) as int == 0) by (nonlinear_arith)
                    requires
                        bx == ax,
                ;
                assert((bx - ax) as int * (t1 - ay) as int == 0) by (nonlinear_arith)
                    requires
                        bx == ax,
                ;
                assert(0int / (byy - ay) as int == 0) by (nonlinear_arith)
                    requires
                        (byy - ay) as int > 0,
                ;
                assert(xs == xe);
                assert(false);
            }
        }
        let bxx = if c < c1 {
            256 * (c + 1)
        } else {
            256 * c
        };
        let tt = t_at_exec(ax, ay, bx, byy, bxx);
        let tb = if tt < tcur {
            tcur
        } else if tt > t1 {
            t1
        } else {
            tt
        };
        let dt = tb - tcur;
        let xo1 = xcur - 256 * c;
        let xo2 = bxx - 256 * c;
        let d = mk_delta(c, r, sgn, dt, xo1, xo2);
        let ghost snap = ops@;
        ops.push(d);
        proof {
            assert(tb as int == spec_iclamp(
                t_at(ax as int, ay as int, bx as int, byy as int, bxx as int),
                tcur as int,
                t1 as int,
            ));
            assert(d.s() == mk_op(
                c as int,
                r as int,
                sgn as int,
                tcur as int,
                tb as int,
                xo1 as int,
                xo2 as int,
            ));
            assert(deltas_view(snap.push(d)) =~= deltas_view(snap).push(d.s()));
            let rest = cols_ops(
                ax as int,
                ay as int,
                bx as int,
                byy as int,
                sgn as int,
                r as int,
                t1 as int,
                xe as int,
                c1 as int,
                if c < c1 {
                    c as int + 1
                } else {
                    c as int - 1
                },
                tb as int,
                bxx as int,
            );
            assert(cols_ops(
                ax as int,
                ay as int,
                bx as int,
                byy as int,
                sgn as int,
                r as int,
                t1 as int,
                xe as int,
                c1 as int,
                c as int,
                tcur as int,
                xcur as int,
            ) =~= seq![d.s()] + rest);
            assert(deltas_view(snap) + (seq![d.s()] + rest) =~= (deltas_view(snap).push(d.s()))
                + rest);
        }
        c = if c < c1 {
            c + 1
        } else {
            c - 1
        };
        tcur = tb;
        xcur = bxx;
    }
    let dt = t1 - tcur;
    let xo1 = xcur - 256 * c;
    let xo2 = xe - 256 * c;
    let d = mk_delta(c, r, sgn, dt, xo1, xo2);
    let ghost snap = ops@;
    ops.push(d);
    proof {
        assert(d.s() == mk_op(
            c as int,
            r as int,
            sgn as int,
            tcur as int,
            t1 as int,
            xo1 as int,
            xo2 as int,
        ));
        assert(cols_ops(
            ax as int,
            ay as int,
            bx as int,
            byy as int,
            sgn as int,
            r as int,
            t1 as int,
            xe as int,
            c1 as int,
            c as int,
            tcur as int,
            xcur as int,
        ) =~= seq![d.s()]);
        assert(deltas_view(snap.push(d)) =~= deltas_view(snap).push(d.s()));
        assert(deltas_view(ops@) =~= base + row);
    }
}

impl Rasterizer {
    /// Accumulate one line segment's coverage deltas.
    ///
    /// Each call changes every coverage entry by exactly the segment's
    /// contribution `line_contrib(p0, p1, …)` — a pure function of the
    /// endpoints and the raster shape alone. Coverage is therefore additive
    /// over segments, whatever order they arrive in.
    pub fn add_line(&mut self, p0: Point, p1: Point)
        requires
            old(self).wf(),
            p0.wf(),
            p1.wf(),
            old(self).ops@ + LINE_OPS_MAX <= OPS_MAX,
        ensures
            final(self).wf(),
            final(self).same_dims(*old(self)),
            final(self).ops@ <= old(self).ops@ + LINE_OPS_MAX,
            old(self).touched@.subset_of(final(self).touched@),
            forall|yy: int, xx: int|
                0 <= yy < old(self).height && 0 <= xx < old(self).cov_w
                    ==> #[trigger] final(self).cov_at(yy, xx) == old(self).cov_at(yy, xx)
                    + line_contrib(p0, p1, old(self).width as int, old(self).height as int, yy, xx),
            final(self).touched@ =~= old(self).touched@.union(
                line_marks(p0, p1, old(self).width as int, old(self).height as int),
            ),
    {
        let ghost full = line_ops(p0, p1, self.height as int);
        proof {
            lemma_line_ops_props(p0, p1, self.height as int);
        }
        if p0.y == p1.y {
            proof {
                lemma_marks_none(self.touched@, full, self.width as int, self.height as int);
            }
            return ;
        }
        let sgn: i64 = if p0.y < p1.y {
            1
        } else {
            -1
        };
        let ax: i64 = if p0.y < p1.y {
            p0.x
        } else {
            p1.x
        };
        let ay: i64 = if p0.y < p1.y {
            p0.y
        } else {
            p1.y
        };
        let bx: i64 = if p0.y < p1.y {
            p1.x
        } else {
            p0.x
        };
        let byy: i64 = if p0.y < p1.y {
            p1.y
        } else {
            p0.y
        };
        let ylo: i64 = if ay >= 0 {
            ay
        } else {
            0
        };
        let hf: i64 = 256 * (self.height as i64);
        let yhi: i64 = if byy <= hf {
            byy
        } else {
            hf
        };
        if ylo >= yhi {
            proof {
                lemma_marks_none(self.touched@, full, self.width as int, self.height as int);
            }
            return ;
        }
        let r0 = floor_div(ylo, 256);
        let r1 = floor_div(yhi - 1, 256);
        proof {
            vstd::arithmetic::div_mod::lemma_div_pos_is_pos(ylo as int, 256);
            lemma_div256_ordered(ylo as int, (yhi - 1) as int);
            assert(full == rows_ops(
                ax as int,
                ay as int,
                bx as int,
                byy as int,
                sgn as int,
                ylo as int,
                yhi as int,
                r0 as int,
                r1 as int,
            ));
        }
        let mut ops: Vec<Delta> = Vec::new();
        let mut r = r0;
        while r <= r1
            invariant
                sgn == 1 || sgn == -1,
                ay < byy,
                -MAX_COORD <= ax <= MAX_COORD,
                -MAX_COORD <= bx <= MAX_COORD,
                -MAX_COORD <= ay <= MAX_COORD,
                -MAX_COORD <= byy <= MAX_COORD,
                ay <= ylo < yhi <= byy,
                0 <= ylo,
                yhi <= 0x100_0000,
                r0 == ylo as int / 256,
                r1 == (yhi - 1) as int / 256,
                r0 <= r <= r1 + 1,
                deltas_view(ops@) + rows_ops(
                    ax as int,
                    ay as int,
                    bx as int,
                    byy as int,
                    sgn as int,
                    ylo as int,
                    yhi as int,
                    r as int,
                    r1 as int,
                ) =~= full,
            decreases r1 + 1 - r,
        {
            let ghost before = deltas_view(ops@);
            emit_row(&mut ops, ax, ay, bx, byy, sgn, r, ylo, yhi);
            proof {
                let rr = row_ops(
                    ax as int,
                    ay as int,
                    bx as int,
                    byy as int,
                    sgn as int,
                    ylo as int,
                    yhi as int,
                    r as int,
                );
                let rest = rows_ops(
                    ax as int,
                    ay as int,
                    bx as int,
                    byy as int,
                    sgn as int,
                    ylo as int,
                    yhi as int,
                    r as int + 1,
                    r1 as int,
                );
                assert(rows_ops(
                    ax as int,
                    ay as int,
                    bx as int,
                    byy as int,
                    sgn as int,
                    ylo as int,
                    yhi as int,
                    r as int,
                    r1 as int,
                ) == rr + rest);
                assert((before + rr) + rest =~= before + (rr + rest));
            }
            r = r + 1;
        }
        proof {
            assert(rows_ops(
                ax as int,
                ay as int,
                bx as int,
                byy as int,
                sgn as int,
                ylo as int,
                yhi as int,
                r as int,
                r1 as int,
            ) =~= Seq::<DeltaS>::empty());
            assert(deltas_view(ops@) =~= full);
        }
        self.apply_deltas(ops, Ghost(full));
    }

    /// Feed a list of well-formed deltas to `add_delta`, one by one.
    fn apply_deltas(&mut self, ops: Vec<Delta>, full: Ghost<Seq<DeltaS>>)
        requires
            old(self).wf(),
            old(self).ops@ + LINE_OPS_MAX <= OPS_MAX,
            deltas_view(ops@) =~= full@,
            ops_ok(full@),
            full@.len() <= LINE_OPS_MAX,
        ensures
            final(self).wf(),
            final(self).same_dims(*old(self)),
            final(self).ops@ <= old(self).ops@ + LINE_OPS_MAX,
            old(self).touched@.subset_of(final(self).touched@),
            forall|yy: int, xx: int|
                0 <= yy < old(self).height && 0 <= xx < old(self).cov_w
                    ==> #[trigger] final(self).cov_at(yy, xx) == old(self).cov_at(yy, xx)
                    + ops_contrib(
                    full@,
                    old(self).width as int,
                    old(self).height as int,
                    yy,
                    xx,
                ),
            final(self).touched@ =~= old(self).touched@.union(
                ops_marks(full@, old(self).width as int, old(self).height as int),
            ),
    {
        let ghost pre = *self;
        let n = ops.len();
        let mut k: usize = 0;
        while k < n
            invariant
                k <= n,
                n == ops@.len(),
                deltas_view(ops@) =~= full@,
                ops_ok(full@),
                full@.len() <= LINE_OPS_MAX,
                self.wf(),
                self.same_dims(pre),
                pre.wf(),
                pre.ops@ + LINE_OPS_MAX <= OPS_MAX,
                self.ops@ <= pre.ops@ + k,
                pre.touched@.subset_of(self.touched@),
                self.touched@ =~= pre.touched@.union(
                    ops_marks(full@.take(k as int), pre.width as int, pre.height as int),
                ),
                forall|yy: int, xx: int|
                    0 <= yy < pre.height && 0 <= xx < pre.cov_w ==> #[trigger] self.cov_at(yy, xx)
                        == pre.cov_at(yy, xx) + ops_contrib(
                        full@.take(k as int),
                        pre.width as int,
                        pre.height as int,
                        yy,
                        xx,
                    ),
            decreases n - k,
        {
            let d = ops[k];
            let ghost mid = *self;
            proof {
                assert(d.s() == full@[k as int]);
                assert(op_ok(full@[k as int]));
            }
            self.add_delta(d.x, d.y, d.h, d.a);
            proof {
                assert(full@.take(k + 1).drop_last() =~= full@.take(k as int));
                assert(full@.take(k + 1).last() == full@[k as int]);
                assert(self.touched@ =~= pre.touched@.union(
                    ops_marks(full@.take(k + 1), pre.width as int, pre.height as int),
                ));
                assert forall|yy: int, xx: int|
                    0 <= yy < pre.height && 0 <= xx < pre.cov_w implies #[trigger] self.cov_at(
                    yy,
                    xx,
                ) == pre.cov_at(yy, xx) + ops_contrib(
                    full@.take(k + 1),
                    pre.width as int,
                    pre.height as int,
                    yy,
                    xx,
                ) by {
                    assert(self.cov_at(yy, xx) == mid.cov_at(yy, xx) + delta_contrib(
                        d.x as int,
                        d.y as int,
                        d.h as int,
                        d.a as int,
                        pre.width as int,
                        pre.height as int,
                        yy,
                        xx,
                    ));
                }
            }
            k = k + 1;
        }
        proof {
            assert(full@.take(n as int) =~= full@);
        }
    }
}

/// An empty delta list marks nothing.
proof fn lemma_marks_none(t: Set<(int, int)>, s: Seq<DeltaS>, w: int, h: int)
    requires
        s.len() == 0,
    ensures
        t =~= t.union(ops_marks(s, w, h)),
{
}

} // verus!
