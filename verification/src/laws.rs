//! Laws of the rasterizer, stated and proved once and for all.
//!
//! These public proof functions record what holds of the pipeline as a
//! whole, over the same specification functions the executable contracts
//! use: the bitmask is a tight index of the marked cells, a fully covered
//! opaque span reproduces the source color exactly, a transparent color
//! never changes a pixel, and a segment walked backwards cancels its own
//! coverage exactly, which makes coverage additive under decomposition.

use vstd::prelude::*;

use crate::color::Color;
use crate::line::cols_ops;
use crate::line::line_contrib;
use crate::line::line_ops;
use crate::line::mk_op;
use crate::line::ops_contrib;
use crate::line::ops_marks;
use crate::line::row_ops;
use crate::line::rows_ops;
use crate::line::DeltaS;
use crate::pipeline::out_pixel;
use crate::raster::delta_contrib;
use crate::raster::Rasterizer;
use crate::covmath::iabs;
use crate::COV_ONE;

verus! {

/// **Bitmask tightness.** In every reachable rasterizer state, a bitmask
/// bit is set exactly for the marked cells — and `add_delta` marks exactly
/// the cells that received a nonzero delta (its `delta_marks` ensures),
/// `add_line` exactly `line_marks`, and `rasterize` exactly `segs_marks`.
/// The bitmask is neither stale nor over-approximate: a delta whose value
/// at a column is zero (a segment grazing a cell boundary) marks nothing
/// there.
pub proof fn lemma_bitmask_tight(r: Rasterizer, yy: int, c: int)
    requires
        r.wf(),
        0 <= yy < r.height,
        0 <= c < 64 * r.bitmasks_width,
    ensures
        r.bit_set(yy, c) <==> r.touched@.contains((yy, c)),
{
}

/// **Opaque-fill fast path exactness.** A pixel of an unmarked span whose
/// coverage is within `0.5/255` of full, filled with an alpha-255 color,
/// equals the packed source color exactly.
pub proof fn lemma_opaque_span_exact(c: int, color: Color, d: int)
    requires
        color.spec_a() == 255,
        510 * c > 509 * COV_ONE,
        0 <= d < 0x1_0000_0000,
    ensures
        out_pixel(false, c, color, d) == color.spec_packed(),
{
}

/// A marked cell's pixel at exactly full coverage also reproduces an
/// opaque source exactly.
pub proof fn lemma_opaque_edge_exact(color: Color, d: int)
    requires
        color.spec_a() == 255,
        0 <= d < 0x1_0000_0000,
    ensures
        out_pixel(true, COV_ONE as int, color, d) == color.spec_packed(),
{
    crate::pipeline::lemma_blend_full_opaque(color, d);
}

/// **Transparent color.** A color with alpha zero never changes a pixel,
/// whatever the coverage and whether or not the cell is marked.
pub proof fn lemma_transparent_noop(edge: bool, c: int, color: Color, d: int)
    requires
        color.spec_a() == 0,
        0 <= c <= COV_ONE,
        0 <= d < 0x1_0000_0000,
    ensures
        out_pixel(edge, c, color, d) == d,
{
    let denom = 255 * COV_ONE as int;
    assert forall|s: int, dd: int| 0 <= dd <= 255 implies crate::pipeline::blend_channel(
        c,
        0,
        s,
        dd,
    ) == dd by {
        assert(c * 0 == 0) by (nonlinear_arith);
        assert(c * 0 * s == 0) by (nonlinear_arith);
        assert((denom - 0) * dd == denom * dd) by (nonlinear_arith);
        assert(denom * dd / denom == dd) by (nonlinear_arith)
            requires
                denom > 0,
        ;
    }
    crate::pipeline::lemma_unpack_bounds(d);
    crate::pipeline::lemma_repack(d);
}

/// A pixel under zero coverage is never changed, marked cell or not: this
/// is what makes a cancelled polygon (one whose deltas sum to zero, like a
/// closed outline left of the viewport) invisible even though its cells
/// are marked.
pub proof fn lemma_zero_coverage_pixel(edge: bool, color: Color, d: int)
    requires
        0 <= d < 0x1_0000_0000,
    ensures
        out_pixel(edge, 0, color, d) == d,
{
    crate::pipeline::lemma_blend_zero(color, d);
}

/// Two delta lists that agree on positions but carry opposite heights and
/// areas.
pub open spec fn ops_negated(s1: Seq<DeltaS>, s2: Seq<DeltaS>) -> bool {
    &&& s1.len() == s2.len()
    &&& forall|k: int|
        0 <= k < s1.len() ==> ((#[trigger] s2[k]).x == s1[k].x && s2[k].y == s1[k].y && s2[k].h
            == -s1[k].h && s2[k].a == -s1[k].a)
}

/// A negated delta contributes the opposite amount everywhere.
proof fn lemma_delta_contrib_neg(x: int, y: int, h: int, a: int, w: int, hh: int, yy: int, xx: int)
    ensures
        delta_contrib(x, y, -h, -a, w, hh, yy, xx) == -delta_contrib(x, y, h, a, w, hh, yy, xx),
{
}

/// Negated delta lists contribute opposite amounts.
proof fn lemma_ops_contrib_neg(s1: Seq<DeltaS>, s2: Seq<DeltaS>, w: int, hh: int, yy: int, xx: int)
    requires
        ops_negated(s1, s2),
    ensures
        ops_contrib(s2, w, hh, yy, xx) == -ops_contrib(s1, w, hh, yy, xx),
    decreases s1.len(),
{
    if s1.len() > 0 {
        assert(ops_negated(s1.drop_last(), s2.drop_last())) by {
            assert forall|k: int| 0 <= k < s1.len() - 1 implies ((#[trigger] s2.drop_last()[k]).x
                == s1.drop_last()[k].x && s2.drop_last()[k].y == s1.drop_last()[k].y
                && s2.drop_last()[k].h == -s1.drop_last()[k].h && s2.drop_last()[k].a
                == -s1.drop_last()[k].a) by {
                assert(s2.drop_last()[k] == s2[k]);
                assert(s1.drop_last()[k] == s1[k]);
            }
        }
        lemma_ops_contrib_neg(s1.drop_last(), s2.drop_last(), w, hh, yy, xx);
        assert(s2.last() == s2[s1.len() - 1]);
        assert(s1.last() == s1[s1.len() - 1]);
        lemma_delta_contrib_neg(
            s1.last().x,
            s1.last().y,
            s1.last().h,
            s1.last().a,
            w,
            hh,
            yy,
            xx,
        );
    }
}

/// Flipping the winding sign of a column walk negates every delta.
proof fn lemma_cols_ops_neg(
    ax: int,
    ay: int,
    bx: int,
    byy: int,
    sgn: int,
    r: int,
    t1: int,
    xe: int,
    c1: int,
    c: int,
    tcur: int,
    xcur: int,
)
    ensures
        ops_negated(
            cols_ops(ax, ay, bx, byy, sgn, r, t1, xe, c1, c, tcur, xcur),
            cols_ops(ax, ay, bx, byy, -sgn, r, t1, xe, c1, c, tcur, xcur),
        ),
    decreases iabs(c1 - c),
{
    let s1 = cols_ops(ax, ay, bx, byy, sgn, r, t1, xe, c1, c, tcur, xcur);
    let s2 = cols_ops(ax, ay, bx, byy, -sgn, r, t1, xe, c1, c, tcur, xcur);
    if c == c1 {
        lemma_mk_op_neg(c, r, sgn, tcur, t1, xcur - 256 * c, xe - 256 * c);
    } else {
        let bxx = if c < c1 {
            256 * (c + 1)
        } else {
            256 * c
        };
        let cn = if c < c1 {
            c + 1
        } else {
            c - 1
        };
        let tb = crate::line::spec_iclamp(crate::line::t_at(ax, ay, bx, byy, bxx), tcur, t1);
        lemma_mk_op_neg(c, r, sgn, tcur, tb, xcur - 256 * c, bxx - 256 * c);
        lemma_cols_ops_neg(ax, ay, bx, byy, sgn, r, t1, xe, c1, cn, tb, bxx);
        let r1 = cols_ops(ax, ay, bx, byy, sgn, r, t1, xe, c1, cn, tb, bxx);
        let r2 = cols_ops(ax, ay, bx, byy, -sgn, r, t1, xe, c1, cn, tb, bxx);
        assert forall|k: int| 0 <= k < s1.len() implies ((#[trigger] s2[k]).x == s1[k].x
            && s2[k].y == s1[k].y && s2[k].h == -s1[k].h && s2[k].a == -s1[k].a) by {
            if k >= 1 {
                assert(s1[k] == r1[k - 1]);
                assert(s2[k] == r2[k - 1]);
            }
        }
    }
}

/// One slice's delta under the opposite winding sign.
proof fn lemma_mk_op_neg(c: int, r: int, sgn: int, ta: int, tb: int, xo1: int, xo2: int)
    by (nonlinear_arith)
    ensures
        mk_op(c, r, -sgn, ta, tb, xo1, xo2).x == mk_op(c, r, sgn, ta, tb, xo1, xo2).x,
        mk_op(c, r, -sgn, ta, tb, xo1, xo2).y == mk_op(c, r, sgn, ta, tb, xo1, xo2).y,
        mk_op(c, r, -sgn, ta, tb, xo1, xo2).h == -mk_op(c, r, sgn, ta, tb, xo1, xo2).h,
        mk_op(c, r, -sgn, ta, tb, xo1, xo2).a == -mk_op(c, r, sgn, ta, tb, xo1, xo2).a,
{
}

/// Flipping the winding sign of the whole walk negates every delta.
proof fn lemma_rows_ops_neg(
    ax: int,
    ay: int,
    bx: int,
    byy: int,
    sgn: int,
    ylo: int,
    yhi: int,
    r: int,
    r1: int,
)
    ensures
        ops_negated(
            rows_ops(ax, ay, bx, byy, sgn, ylo, yhi, r, r1),
            rows_ops(ax, ay, bx, byy, -sgn, ylo, yhi, r, r1),
        ),
    decreases r1 + 1 - r,
{
    let s1 = rows_ops(ax, ay, bx, byy, sgn, ylo, yhi, r, r1);
    let s2 = rows_ops(ax, ay, bx, byy, -sgn, ylo, yhi, r, r1);
    if r > r1 {
    } else {
        let t0 = crate::covmath::spec_imax(ylo, 256 * r);
        let t1 = crate::covmath::spec_imin(yhi, 256 * r + 256);
        let xs = crate::line::x_at(ax, ay, bx, byy, t0);
        let xe = crate::line::x_at(ax, ay, bx, byy, t1);
        lemma_cols_ops_neg(ax, ay, bx, byy, sgn, r, t1, xe, xe / 256, xs / 256, t0, xs);
        lemma_rows_ops_neg(ax, ay, bx, byy, sgn, ylo, yhi, r + 1, r1);
        let h1 = row_ops(ax, ay, bx, byy, sgn, ylo, yhi, r);
        let h2 = row_ops(ax, ay, bx, byy, -sgn, ylo, yhi, r);
        let rest1 = rows_ops(ax, ay, bx, byy, sgn, ylo, yhi, r + 1, r1);
        let rest2 = rows_ops(ax, ay, bx, byy, -sgn, ylo, yhi, r + 1, r1);
        assert forall|k: int| 0 <= k < s1.len() implies ((#[trigger] s2[k]).x == s1[k].x
            && s2[k].y == s1[k].y && s2[k].h == -s1[k].h && s2[k].a == -s1[k].a) by {
            if k < h1.len() {
                assert(s1[k] == h1[k]);
                assert(s2[k] == h2[k]);
            } else {
                assert(s1[k] == rest1[k - h1.len()]);
                assert(s2[k] == rest2[k - h1.len()]);
            }
        }
    }
}

/// Walking a segment backwards emits exactly the negated deltas.
proof fn lemma_line_ops_neg(p0: crate::geom::Point, p1: crate::geom::Point, hpx: int)
    ensures
        ops_negated(line_ops(p0, p1, hpx), line_ops(p1, p0, hpx)),
{
    if p0.y == p1.y {
    } else if p0.y < p1.y {
        let ylo = crate::covmath::spec_imax(p0.y as int, 0);
        let yhi = crate::covmath::spec_imin(p1.y as int, 256 * hpx);
        if ylo < yhi {
            lemma_rows_ops_neg(
                p0.x as int,
                p0.y as int,
                p1.x as int,
                p1.y as int,
                1,
                ylo,
                yhi,
                ylo / 256,
                (yhi - 1) / 256,
            );
        }
    } else {
        let ylo = crate::covmath::spec_imax(p1.y as int, 0);
        let yhi = crate::covmath::spec_imin(p0.y as int, 256 * hpx);
        if ylo < yhi {
            lemma_rows_ops_neg(
                p1.x as int,
                p1.y as int,
                p0.x as int,
                p0.y as int,
                1,
                ylo,
                yhi,
                ylo / 256,
                (yhi - 1) / 256,
            );
        }
    }
}

/// **Additivity of coverage.** A segment walked backwards cancels its own
/// coverage exactly, at every coverage entry. Together with `add_line`'s
/// contract — each segment adds `line_contrib`, a pure function of the
/// segment alone, to every entry — this is what makes decomposition sound:
/// splitting a polygon into two sub-polygons along a shared edge rasterizes
/// to exactly the same coverage, because the shared edge is walked once in
/// each direction and contributes nothing.
pub proof fn lemma_reverse_segment_cancels(
    p0: crate::geom::Point,
    p1: crate::geom::Point,
    w: int,
    h: int,
    yy: int,
    xx: int,
)
    ensures
        line_contrib(p0, p1, w, h, yy, xx) + line_contrib(p1, p0, w, h, yy, xx) == 0,
{
    lemma_line_ops_neg(p0, p1, h);
    lemma_ops_contrib_neg(line_ops(p0, p1, h), line_ops(p1, p0, h), w, h, yy, xx);
}

/// Contributions add over concatenation of segment lists.
proof fn lemma_segs_concat(
    s1: Seq<crate::flatten::Line>,
    s2: Seq<crate::flatten::Line>,
    w: int,
    h: int,
    yy: int,
    xx: int,
)
    ensures
        crate::render::segs_contrib(s1 + s2, w, h, yy, xx) == crate::render::segs_contrib(
            s1,
            w,
            h,
            yy,
            xx,
        ) + crate::render::segs_contrib(s2, w, h, yy, xx),
    decreases s2.len(),
{
    if s2.len() == 0 {
        assert(s1 + s2 =~= s1);
    } else {
        assert((s1 + s2).drop_last() =~= s1 + s2.drop_last());
        assert((s1 + s2).last() == s2.last());
        lemma_segs_concat(s1, s2.drop_last(), w, h, yy, xx);
    }
}

/// **Decomposition.** Inserting a segment walked there and back anywhere
/// in a segment list leaves the accumulated coverage untouched. Splitting
/// a polygon into two sub-polygons along a shared edge produces exactly
/// such a list — the shared edge appears once in each direction — so both
/// decompositions rasterize to identical coverage.
pub proof fn lemma_decomposition_invariant(
    s1: Seq<crate::flatten::Line>,
    s2: Seq<crate::flatten::Line>,
    p: crate::geom::Point,
    q: crate::geom::Point,
    w: int,
    h: int,
    yy: int,
    xx: int,
)
    ensures
        crate::render::segs_contrib(
            s1 + seq![
                crate::flatten::Line { p0: p, p1: q },
                crate::flatten::Line { p0: q, p1: p },
            ] + s2,
            w,
            h,
            yy,
            xx,
        ) == crate::render::segs_contrib(s1 + s2, w, h, yy, xx),
{
    let pair = seq![
        crate::flatten::Line { p0: p, p1: q },
        crate::flatten::Line { p0: q, p1: p },
    ];
    lemma_segs_concat(s1 + pair, s2, w, h, yy, xx);
    lemma_segs_concat(s1, pair, w, h, yy, xx);
    lemma_segs_concat(s1, s2, w, h, yy, xx);
    lemma_reverse_segment_cancels(p, q, w, h, yy, xx);
    assert(crate::render::segs_contrib(pair, w, h, yy, xx) == 0) by {
        let fwd = seq![crate::flatten::Line { p0: p, p1: q }];
        assert(pair.drop_last() =~= fwd);
        assert(pair.last() == (crate::flatten::Line { p0: q, p1: p }));
        assert(fwd.drop_last() =~= Seq::<crate::flatten::Line>::empty());
        assert(fwd.last() == (crate::flatten::Line { p0: p, p1: q }));
        assert(crate::render::segs_contrib(fwd.drop_last(), w, h, yy, xx) == 0);
        assert(crate::render::segs_contrib(pair.drop_last(), w, h, yy, xx)
            == crate::render::segs_contrib(fwd, w, h, yy, xx));
        assert(crate::render::segs_contrib(fwd, w, h, yy, xx) == line_contrib(p, q, w, h, yy, xx));
    }
}

/// Contributions add over concatenation of delta lists.
proof fn lemma_contrib_concat(s1: Seq<DeltaS>, s2: Seq<DeltaS>, w: int, h: int, yy: int, xx: int)
    ensures
        ops_contrib(s1 + s2, w, h, yy, xx) == ops_contrib(s1, w, h, yy, xx) + ops_contrib(
            s2,
            w,
            h,
            yy,
            xx,
        ),
    decreases s2.len(),
{
    if s2.len() == 0 {
        assert(s1 + s2 =~= s1);
    } else {
        assert((s1 + s2).drop_last() =~= s1 + s2.drop_last());
        assert((s1 + s2).last() == s2.last());
        lemma_contrib_concat(s1, s2.drop_last(), w, h, yy, xx);
    }
}

/// A column walk entirely left of column zero folds all its height onto
/// column zero of its row, and nothing else.
proof fn lemma_cols_fold(
    ax: int,
    ay: int,
    bx: int,
    byy: int,
    sgn: int,
    r: int,
    t1: int,
    xe: int,
    c1: int,
    c: int,
    tcur: int,
    xcur: int,
    w: int,
    h: int,
    yy: int,
    xx: int,
)
    requires
        sgn == 1 || sgn == -1,
        c <= -1,
        c1 <= -1,
        w >= 0,
        xx >= 0,
    ensures
        ops_contrib(cols_ops(ax, ay, bx, byy, sgn, r, t1, xe, c1, c, tcur, xcur), w, h, yy, xx)
            == (if xx == 0 && yy == r && 0 <= r < h {
            512 * sgn * (t1 - tcur)
        } else {
            0
        }),
    decreases iabs(c1 - c),
{
    let s = cols_ops(ax, ay, bx, byy, sgn, r, t1, xe, c1, c, tcur, xcur);
    if c == c1 {
        let d = mk_op(c, r, sgn, tcur, t1, xcur - 256 * c, xe - 256 * c);
        assert(s =~= seq![d]);
        assert(s.drop_last() =~= Seq::<DeltaS>::empty());
        assert(ops_contrib(s.drop_last(), w, h, yy, xx) == 0);
        assert(s.last() == d);
        assert(s.len() == 1);
        assert(d.h == 512 * sgn * (t1 - tcur));
        assert(ops_contrib(s, w, h, yy, xx) == delta_contrib(d.x, d.y, d.h, d.a, w, h, yy, xx));
        assert(d.h == 0 && d.a == 0 ==> 512 * sgn * (t1 - tcur) == 0);
    } else {
        let bxx = if c < c1 {
            256 * (c + 1)
        } else {
            256 * c
        };
        let cn = if c < c1 {
            c + 1
        } else {
            c - 1
        };
        let tb = crate::line::spec_iclamp(crate::line::t_at(ax, ay, bx, byy, bxx), tcur, t1);
        let head = seq![mk_op(c, r, sgn, tcur, tb, xcur - 256 * c, bxx - 256 * c)];
        let rest = cols_ops(ax, ay, bx, byy, sgn, r, t1, xe, c1, cn, tb, bxx);
        lemma_contrib_concat(head, rest, w, h, yy, xx);
        assert(head.drop_last() =~= Seq::<DeltaS>::empty());
        lemma_cols_fold(ax, ay, bx, byy, sgn, r, t1, xe, c1, cn, tb, bxx, w, h, yy, xx);
        let d = head[0];
        assert(head.drop_last() =~= Seq::<DeltaS>::empty());
        assert(ops_contrib(head.drop_last(), w, h, yy, xx) == 0);
        assert(head.last() == d);
        assert(head.len() == 1);
        assert(d.h == 512 * sgn * (tb - tcur));
        assert(ops_contrib(head, w, h, yy, xx) == delta_contrib(d.x, d.y, d.h, d.a, w, h, yy, xx));
        if xx == 0 && yy == r && 0 <= r < h {
            assert(512 * sgn * (tb - tcur) + 512 * sgn * (t1 - tb) == 512 * sgn * (t1 - tcur))
                by (nonlinear_arith);
            assert(d.h == 0 && d.a == 0 ==> 512 * sgn * (tb - tcur) == 0);
        }
    }
}

/// The whole walk of a segment entirely left of column zero: each row gets
/// the segment's clipped height on column zero, and nothing else.
proof fn lemma_rows_fold(
    ax: int,
    ay: int,
    bx: int,
    byy: int,
    sgn: int,
    ylo: int,
    yhi: int,
    r: int,
    r1: int,
    w: int,
    h: int,
    yy: int,
    xx: int,
)
    requires
        sgn == 1 || sgn == -1,
        ay < byy,
        -crate::MAX_COORD <= ax <= -1,
        -crate::MAX_COORD <= bx <= -1,
        ay <= ylo < yhi <= byy,
        0 <= ylo,
        yhi <= 0x100_0000,
        ylo / 256 <= r <= r1,
        r1 == (yhi - 1) / 256,
        w >= 0,
        xx >= 0,
    ensures
        ops_contrib(rows_ops(ax, ay, bx, byy, sgn, ylo, yhi, r, r1), w, h, yy, xx) == (if xx == 0
            && r <= yy <= r1 && 0 <= yy < h {
            512 * sgn * (crate::covmath::spec_imin(yhi, 256 * yy + 256) - crate::covmath::spec_imax(
                ylo,
                256 * yy,
            ))
        } else {
            0
        }),
    decreases r1 - r,
{
    let t0 = crate::covmath::spec_imax(ylo, 256 * r);
    let t1 = crate::covmath::spec_imin(yhi, 256 * r + 256);
    let xs = crate::line::x_at(ax, ay, bx, byy, t0);
    let xe = crate::line::x_at(ax, ay, bx, byy, t1);
    // Row bounds, as in the walk's own length lemma.
    lemma_row_span(ax, ay, bx, byy, ylo, yhi, r, r1);
    let row = row_ops(ax, ay, bx, byy, sgn, ylo, yhi, r);
    let rest = rows_ops(ax, ay, bx, byy, sgn, ylo, yhi, r + 1, r1);
    lemma_contrib_concat(row, rest, w, h, yy, xx);
    lemma_cols_fold(
        ax,
        ay,
        bx,
        byy,
        sgn,
        r,
        t1,
        xe,
        xe / 256,
        xs / 256,
        t0,
        xs,
        w,
        h,
        yy,
        xx,
    );
    if r == r1 {
        assert(rest =~= Seq::<DeltaS>::empty());
    } else {
        lemma_rows_fold(ax, ay, bx, byy, sgn, ylo, yhi, r + 1, r1, w, h, yy, xx);
    }
}

/// The x span of one row of a leftward segment stays left of column zero.
proof fn lemma_row_span(
    ax: int,
    ay: int,
    bx: int,
    byy: int,
    ylo: int,
    yhi: int,
    r: int,
    r1: int,
)
    requires
        ay < byy,
        -crate::MAX_COORD <= ax <= -1,
        -crate::MAX_COORD <= bx <= -1,
        ay <= ylo < yhi <= byy,
        0 <= ylo,
        yhi <= 0x100_0000,
        ylo / 256 <= r <= r1,
        r1 == (yhi - 1) / 256,
    ensures
        crate::line::x_at(
            ax,
            ay,
            bx,
            byy,
            crate::covmath::spec_imax(ylo, 256 * r),
        ) / 256 <= -1,
        crate::line::x_at(
            ax,
            ay,
            bx,
            byy,
            crate::covmath::spec_imin(yhi, 256 * r + 256),
        ) / 256 <= -1,
{
    let t0 = crate::covmath::spec_imax(ylo, 256 * r);
    let t1 = crate::covmath::spec_imin(yhi, 256 * r + 256);
    lemma_row_extent(ylo, yhi, r, r1);
    lemma_x_bounds_left(ax, ay, bx, byy, t0);
    lemma_x_bounds_left(ax, ay, bx, byy, t1);
}

/// The vertical extent of a row of the walk lies inside the segment's
/// clipped span.
proof fn lemma_row_extent(ylo: int, yhi: int, r: int, r1: int)
    requires
        0 <= ylo < yhi,
        ylo / 256 <= r <= r1,
        r1 == (yhi - 1) / 256,
    ensures
        ylo <= crate::covmath::spec_imax(ylo, 256 * r),
        crate::covmath::spec_imax(ylo, 256 * r) <= crate::covmath::spec_imin(yhi, 256 * r + 256),
        crate::covmath::spec_imin(yhi, 256 * r + 256) <= yhi,
{
    vstd::arithmetic::div_mod::lemma_fundamental_div_mod(ylo, 256);
    vstd::arithmetic::div_mod::lemma_fundamental_div_mod(yhi - 1, 256);
    assert(256 * (ylo / 256) <= 256 * r && 256 * r <= 256 * r1) by (nonlinear_arith)
        requires
            ylo / 256 <= r <= r1,
    ;
}

/// A crossing position of a segment whose endpoints are left of column zero
/// itself stays left of column zero.
proof fn lemma_x_bounds_left(ax: int, ay: int, bx: int, byy: int, t: int)
    requires
        ay < byy,
        -crate::MAX_COORD <= ax <= -1,
        -crate::MAX_COORD <= bx <= -1,
        ay <= t <= byy,
    ensures
        crate::line::x_at(ax, ay, bx, byy, t) / 256 <= -1,
{
    crate::laws::lemma_x_at_bounds_pub(ax, ay, bx, byy, t);
    let x = crate::line::x_at(ax, ay, bx, byy, t);
    assert(x <= -1);
    vstd::arithmetic::div_mod::lemma_div_is_ordered(x, -1, 256);
    assert((-1int) / 256 == -1) by (nonlinear_arith);
}

/// The crossing position stays between the segment's endpoints.
proof fn lemma_x_at_bounds_pub(ax: int, ay: int, bx: int, byy: int, t: int)
    requires
        ay < byy,
        ay <= t <= byy,
    ensures
        crate::covmath::spec_imin(ax, bx) <= crate::line::x_at(ax, ay, bx, byy, t)
            <= crate::covmath::spec_imax(ax, bx),
{
    let dx = bx - ax;
    let dy = byy - ay;
    let num = dx * (t - ay);
    vstd::arithmetic::div_mod::lemma_div_multiples_vanish(dx, dy);
    assert(dx * dy == dy * dx) by (nonlinear_arith);
    if dx >= 0 {
        assert(0 <= num <= dx * dy) by (nonlinear_arith)
            requires
                num == dx * (t - ay) && dx >= 0 && 0 <= t - ay <= dy,
        ;
        vstd::arithmetic::div_mod::lemma_div_pos_is_pos(num, dy);
        vstd::arithmetic::div_mod::lemma_div_is_ordered(num, dx * dy, dy);
    } else {
        assert(dx * dy <= num <= 0) by (nonlinear_arith)
            requires
                num == dx * (t - ay) && dx < 0 && 0 <= t - ay <= dy,
        ;
        vstd::arithmetic::div_mod::lemma_div_is_ordered(dx * dy, num, dy);
        vstd::arithmetic::div_mod::lemma_div_is_ordered(num, 0, dy);
        assert(0int / dy == 0) by (nonlinear_arith)
            requires
                dy > 0,
        ;
    }
}

/// A segment entirely left of the raster folds its clipped height onto
/// column zero of each row it crosses, and contributes nothing anywhere
/// else.
pub proof fn lemma_left_segment_folds(
    p0: crate::geom::Point,
    p1: crate::geom::Point,
    w: int,
    h: int,
    yy: int,
    xx: int,
)
    requires
        p0.wf(),
        p1.wf(),
        p0.x <= -1,
        p1.x <= -1,
        0 <= yy < h,
        h <= 0x1_0000,
        w >= 0,
        xx >= 0,
    ensures
        line_contrib(p0, p1, w, h, yy, xx) == (if xx == 0 {
            512 * (spec_yclamp(p1.y as int, yy, h) - spec_yclamp(p0.y as int, yy, h))
        } else {
            0
        }),
{
    let bb = 256 * yy;
    let tt = 256 * yy + 256;
    if p0.y == p1.y {
        return ;
    }
    let sgn: int = if p0.y < p1.y {
        1int
    } else {
        -1int
    };
    let ay: int = if p0.y < p1.y {
        p0.y as int
    } else {
        p1.y as int
    };
    let byy: int = if p0.y < p1.y {
        p1.y as int
    } else {
        p0.y as int
    };
    let ax: int = if p0.y < p1.y {
        p0.x as int
    } else {
        p1.x as int
    };
    let bx: int = if p0.y < p1.y {
        p1.x as int
    } else {
        p0.x as int
    };
    let ylo = crate::covmath::spec_imax(ay, 0);
    let yhi = crate::covmath::spec_imin(byy, 256 * h);
    assert(256 * h <= 0x100_0000) by (nonlinear_arith)
        requires
            h <= 0x1_0000,
    ;
    if ylo >= yhi {
        // The segment is clipped away; both clamps agree on every row.
        assert(spec_yclamp(byy, yy, h) == spec_yclamp(ay, yy, h)) by {
            assert(0 <= bb && tt <= 256 * h) by (nonlinear_arith)
                requires
                    0 <= yy < h && bb == 256 * yy && tt == 256 * yy + 256,
            ;
        }
        return ;
    }
    let r0 = ylo / 256;
    let r1 = (yhi - 1) / 256;
    vstd::arithmetic::div_mod::lemma_div_pos_is_pos(ylo, 256);
    vstd::arithmetic::div_mod::lemma_div_is_ordered(ylo, yhi - 1, 256);
    lemma_rows_fold(ax, ay, bx, byy, sgn, ylo, yhi, r0, r1, w, h, yy, xx);
    if xx == 0 {
        lemma_clamp_algebra(ay, byy, ylo, yhi, r0, r1, yy, h);
        if sgn == 1 {
        } else {
            assert(512 * sgn * (crate::covmath::spec_imin(yhi, tt) - crate::covmath::spec_imax(
                ylo,
                bb,
            )) == -(512 * (crate::covmath::spec_imin(yhi, tt) - crate::covmath::spec_imax(
                ylo,
                bb,
            )))) by (nonlinear_arith)
                requires
                    sgn == -1,
            ;
        }
    }
}

/// A coordinate clamped to one row's vertical extent within the raster.
pub open spec fn spec_yclamp(v: int, yy: int, h: int) -> int {
    crate::line::spec_iclamp(v, 256 * yy, 256 * yy + 256)
}

/// The clipped overlap of a segment's span with one row equals the
/// difference of the row-clamped endpoints.
proof fn lemma_clamp_algebra(
    ay: int,
    byy: int,
    ylo: int,
    yhi: int,
    r0: int,
    r1: int,
    yy: int,
    h: int,
)
    requires
        ay < byy,
        ylo == crate::covmath::spec_imax(ay, 0),
        yhi == crate::covmath::spec_imin(byy, 256 * h),
        ylo < yhi,
        r0 == ylo / 256,
        r1 == (yhi - 1) / 256,
        0 <= yy < h,
        256 * h <= 0x100_0000,
    ensures
        (if r0 <= yy <= r1 {
            crate::covmath::spec_imin(yhi, 256 * yy + 256) - crate::covmath::spec_imax(
                ylo,
                256 * yy,
            )
        } else {
            0
        }) == spec_yclamp(byy, yy, h) - spec_yclamp(ay, yy, h),
{
    let bb = 256 * yy;
    let tt = 256 * yy + 256;
    vstd::arithmetic::div_mod::lemma_fundamental_div_mod(ylo, 256);
    vstd::arithmetic::div_mod::lemma_fundamental_div_mod(yhi - 1, 256);
    assert(0 <= bb && tt <= 256 * h) by (nonlinear_arith)
        requires
            0 <= yy < h && bb == 256 * yy && tt == 256 * yy + 256,
    ;
    if r0 <= yy <= r1 {
        assert(256 * r0 <= bb && bb <= 256 * r1) by (nonlinear_arith)
            requires
                r0 <= yy <= r1 && bb == 256 * yy,
        ;
    } else if yy < r0 {
        assert(tt <= 256 * r0) by (nonlinear_arith)
            requires
                yy < r0 && tt == 256 * yy + 256,
        ;
    } else {
        assert(bb >= 256 * (r1 + 1)) by (nonlinear_arith)
            requires
                yy > r1 && bb == 256 * yy,
        ;
    }
}

/// The running total a closed polygon's remaining edges contribute, edge
/// `k` onward, with the closing edge back to the first vertex.
pub open spec fn ring_contrib(
    pts: Seq<crate::geom::Point>,
    k: int,
    w: int,
    h: int,
    yy: int,
    xx: int,
) -> int
    decreases pts.len() - k,
{
    if k < 0 || k >= pts.len() {
        0
    } else {
        line_contrib(
            pts[k],
            pts[if k + 1 < pts.len() {
                k + 1
            } else {
                0
            }],
            w,
            h,
            yy,
            xx,
        ) + ring_contrib(pts, k + 1, w, h, yy, xx)
    }
}

/// The folds of a leftward polygon's tail telescope to the difference of
/// the clamped first and current vertices.
proof fn lemma_ring_left(
    pts: Seq<crate::geom::Point>,
    k: int,
    w: int,
    h: int,
    yy: int,
    xx: int,
)
    requires
        forall|i: int| 0 <= i < pts.len() ==> (#[trigger] pts[i]).wf() && pts[i].x <= -1,
        0 <= k < pts.len(),
        0 <= yy < h,
        h <= 0x1_0000,
        w >= 0,
        xx >= 0,
    ensures
        ring_contrib(pts, k, w, h, yy, xx) == (if xx == 0 {
            512 * (spec_yclamp(pts[0].y as int, yy, h) - spec_yclamp(pts[k].y as int, yy, h))
        } else {
            0
        }),
    decreases pts.len() - k,
{
    let nxt = if k + 1 < pts.len() {
        k + 1
    } else {
        0
    };
    assert(pts[k].wf() && pts[k].x <= -1);
    assert(pts[nxt].wf() && pts[nxt].x <= -1);
    assert(ring_contrib(pts, k, w, h, yy, xx) == line_contrib(pts[k], pts[nxt], w, h, yy, xx)
        + ring_contrib(pts, k + 1, w, h, yy, xx));
    lemma_left_segment_folds(pts[k], pts[nxt], w, h, yy, xx);
    if k + 1 < pts.len() {
        lemma_ring_left(pts, k + 1, w, h, yy, xx);
    } else {
        assert(ring_contrib(pts, k + 1, w, h, yy, xx) == 0);
    }
}

/// **Closed-path neutrality, left of the viewport.** A closed polygon whose
/// vertices all lie left of column zero contributes nothing to any coverage
/// entry: its left-edge folds cancel row by row, so the framebuffer cannot
/// change. (A polygon with vertices on several sides of the raster can
/// enclose raster pixels and genuinely covers them, so the law is stated
/// per outside half-plane.)
pub proof fn lemma_left_polygon_neutral(
    pts: Seq<crate::geom::Point>,
    w: int,
    h: int,
    yy: int,
    xx: int,
)
    requires
        forall|i: int| 0 <= i < pts.len() ==> (#[trigger] pts[i]).wf() && pts[i].x <= -1,
        pts.len() > 0,
        0 <= yy < h,
        h <= 0x1_0000,
        w >= 0,
        xx >= 0,
    ensures
        ring_contrib(pts, 0, w, h, yy, xx) == 0,
{
    lemma_ring_left(pts, 0, w, h, yy, xx);
}

/// Two delta lists equal up to a whole-pixel translation.
pub open spec fn ops_shifted(s1: Seq<DeltaS>, s2: Seq<DeltaS>, dxp: int, dyp: int) -> bool {
    &&& s1.len() == s2.len()
    &&& forall|k: int|
        0 <= k < s1.len() ==> ((#[trigger] s2[k]).x == s1[k].x + dxp && s2[k].y == s1[k].y + dyp
            && s2[k].h == s1[k].h && s2[k].a == s1[k].a)
}

/// Translating a column walk by whole pixels translates its deltas.
proof fn lemma_cols_shift(
    ax: int,
    ay: int,
    bx: int,
    byy: int,
    sgn: int,
    r: int,
    t1: int,
    xe: int,
    c1: int,
    c: int,
    tcur: int,
    xcur: int,
    dxp: int,
    dyp: int,
)
    ensures
        ops_shifted(
            cols_ops(ax, ay, bx, byy, sgn, r, t1, xe, c1, c, tcur, xcur),
            cols_ops(
                ax + 256 * dxp,
                ay + 256 * dyp,
                bx + 256 * dxp,
                byy + 256 * dyp,
                sgn,
                r + dyp,
                t1 + 256 * dyp,
                xe + 256 * dxp,
                c1 + dxp,
                c + dxp,
                tcur + 256 * dyp,
                xcur + 256 * dxp,
            ),
            dxp,
            dyp,
        ),
    decreases iabs(c1 - c),
{
    let dx2 = 256 * dxp;
    let dy2 = 256 * dyp;
    let s1 = cols_ops(ax, ay, bx, byy, sgn, r, t1, xe, c1, c, tcur, xcur);
    let s2 = cols_ops(
        ax + dx2,
        ay + dy2,
        bx + dx2,
        byy + dy2,
        sgn,
        r + dyp,
        t1 + dy2,
        xe + dx2,
        c1 + dxp,
        c + dxp,
        tcur + dy2,
        xcur + dx2,
    );
    assert(crate::line::t_at(ax + dx2, ay + dy2, bx + dx2, byy + dy2, 256 * (c + dxp) + 256)
        == crate::line::t_at(ax, ay, bx, byy, 256 * (c + 1)) + dy2);
    assert(crate::line::t_at(ax + dx2, ay + dy2, bx + dx2, byy + dy2, 256 * (c + dxp))
        == crate::line::t_at(ax, ay, bx, byy, 256 * c) + dy2);
    if c == c1 {
    } else if c < c1 {
        let tb = crate::line::spec_iclamp(
            crate::line::t_at(ax, ay, bx, byy, 256 * (c + 1)),
            tcur,
            t1,
        );
        lemma_cols_shift(
            ax,
            ay,
            bx,
            byy,
            sgn,
            r,
            t1,
            xe,
            c1,
            c + 1,
            tb,
            256 * (c + 1),
            dxp,
            dyp,
        );
        let r1s = cols_ops(ax, ay, bx, byy, sgn, r, t1, xe, c1, c + 1, tb, 256 * (c + 1));
        let r2s = cols_ops(
            ax + dx2,
            ay + dy2,
            bx + dx2,
            byy + dy2,
            sgn,
            r + dyp,
            t1 + dy2,
            xe + dx2,
            c1 + dxp,
            c + dxp + 1,
            tb + dy2,
            256 * (c + 1) + dx2,
        );
        assert(256 * (c + dxp + 1) == 256 * (c + 1) + dx2);
        assert forall|k: int| 0 <= k < s1.len() implies ((#[trigger] s2[k]).x == s1[k].x + dxp
            && s2[k].y == s1[k].y + dyp && s2[k].h == s1[k].h && s2[k].a == s1[k].a) by {
            if k >= 1 {
                assert(s1[k] == r1s[k - 1]);
                assert(s2[k] == r2s[k - 1]);
            }
        }
    } else {
        let tb = crate::line::spec_iclamp(
            crate::line::t_at(ax, ay, bx, byy, 256 * c),
            tcur,
            t1,
        );
        lemma_cols_shift(ax, ay, bx, byy, sgn, r, t1, xe, c1, c - 1, tb, 256 * c, dxp, dyp);
        let r1s = cols_ops(ax, ay, bx, byy, sgn, r, t1, xe, c1, c - 1, tb, 256 * c);
        let r2s = cols_ops(
            ax + dx2,
            ay + dy2,
            bx + dx2,
            byy + dy2,
            sgn,
            r + dyp,
            t1 + dy2,
            xe + dx2,
            c1 + dxp,
            c + dxp - 1,
            tb + dy2,
            256 * c + dx2,
        );
        assert(256 * (c + dxp) == 256 * c + dx2);
        assert forall|k: int| 0 <= k < s1.len() implies ((#[trigger] s2[k]).x == s1[k].x + dxp
            && s2[k].y == s1[k].y + dyp && s2[k].h == s1[k].h && s2[k].a == s1[k].a) by {
            if k >= 1 {
                assert(s1[k] == r1s[k - 1]);
                assert(s2[k] == r2s[k - 1]);
            }
        }
    }
}

/// Dividing by 256 commutes with shifting by whole multiples of 256.
proof fn lemma_div_shift(v: int, k: int)
    ensures
        (v + 256 * k) / 256 == v / 256 + k,
{
    vstd::arithmetic::div_mod::lemma_fundamental_div_mod(v, 256);
    assert(v + 256 * k == 256 * (v / 256 + k) + v % 256) by (nonlinear_arith)
        requires
            v == 256 * (v / 256) + v % 256,
    ;
    vstd::arithmetic::div_mod::lemma_fundamental_div_mod_converse(
        v + 256 * k,
        256,
        v / 256 + k,
        v % 256,
    );
}

/// Translating the whole walk by whole pixels translates its deltas.
proof fn lemma_rows_shift(
    ax: int,
    ay: int,
    bx: int,
    byy: int,
    sgn: int,
    ylo: int,
    yhi: int,
    r: int,
    r1: int,
    dxp: int,
    dyp: int,
)
    ensures
        ops_shifted(
            rows_ops(ax, ay, bx, byy, sgn, ylo, yhi, r, r1),
            rows_ops(
                ax + 256 * dxp,
                ay + 256 * dyp,
                bx + 256 * dxp,
                byy + 256 * dyp,
                sgn,
                ylo + 256 * dyp,
                yhi + 256 * dyp,
                r + dyp,
                r1 + dyp,
            ),
            dxp,
            dyp,
        ),
    decreases r1 + 1 - r,
{
    let dx2 = 256 * dxp;
    let dy2 = 256 * dyp;
    let s1 = rows_ops(ax, ay, bx, byy, sgn, ylo, yhi, r, r1);
    let s2 = rows_ops(
        ax + dx2,
        ay + dy2,
        bx + dx2,
        byy + dy2,
        sgn,
        ylo + dy2,
        yhi + dy2,
        r + dyp,
        r1 + dyp,
    );
    if r > r1 {
    } else {
        let t0 = crate::covmath::spec_imax(ylo, 256 * r);
        let t1 = crate::covmath::spec_imin(yhi, 256 * r + 256);
        assert(256 * (r + dyp) == 256 * r + dy2);
        assert(crate::covmath::spec_imax(ylo + dy2, 256 * (r + dyp)) == t0 + dy2);
        assert(crate::covmath::spec_imin(yhi + dy2, 256 * (r + dyp) + 256) == t1 + dy2);
        let xs = crate::line::x_at(ax, ay, bx, byy, t0);
        let xe = crate::line::x_at(ax, ay, bx, byy, t1);
        assert(crate::line::x_at(ax + dx2, ay + dy2, bx + dx2, byy + dy2, t0 + dy2) == xs + dx2);
        assert(crate::line::x_at(ax + dx2, ay + dy2, bx + dx2, byy + dy2, t1 + dy2) == xe + dx2);
        lemma_div_shift(xs, dxp);
        lemma_div_shift(xe, dxp);
        lemma_cols_shift(ax, ay, bx, byy, sgn, r, t1, xe, xe / 256, xs / 256, t0, xs, dxp, dyp);
        lemma_rows_shift(ax, ay, bx, byy, sgn, ylo, yhi, r + 1, r1, dxp, dyp);
        let h1 = row_ops(ax, ay, bx, byy, sgn, ylo, yhi, r);
        let h2 = row_ops(
            ax + dx2,
            ay + dy2,
            bx + dx2,
            byy + dy2,
            sgn,
            ylo + dy2,
            yhi + dy2,
            r + dyp,
        );
        let rest1 = rows_ops(ax, ay, bx, byy, sgn, ylo, yhi, r + 1, r1);
        let rest2 = rows_ops(
            ax + dx2,
            ay + dy2,
            bx + dx2,
            byy + dy2,
            sgn,
            ylo + dy2,
            yhi + dy2,
            r + 1 + dyp,
            r1 + dyp,
        );
        assert(ops_shifted(h1, h2, dxp, dyp));
        assert forall|k: int| 0 <= k < s1.len() implies ((#[trigger] s2[k]).x == s1[k].x + dxp
            && s2[k].y == s1[k].y + dyp && s2[k].h == s1[k].h && s2[k].a == s1[k].a) by {
            if k < h1.len() {
                assert(s1[k] == h1[k]);
                assert(s2[k] == h2[k]);
            } else {
                assert(s1[k] == rest1[k - h1.len()]);
                assert(s2[k] == rest2[k - h1.len()]);
            }
        }
    }
}

/// Column and row bounds of every delta a walk emits.
proof fn lemma_cols_ops_range(
    ax: int,
    ay: int,
    bx: int,
    byy: int,
    sgn: int,
    r: int,
    t1: int,
    xe: int,
    c1: int,
    c: int,
    tcur: int,
    xcur: int,
)
    ensures
        forall|k: int|
            0 <= k < cols_ops(ax, ay, bx, byy, sgn, r, t1, xe, c1, c, tcur, xcur).len() ==> ({
                let d = #[trigger] cols_ops(ax, ay, bx, byy, sgn, r, t1, xe, c1, c, tcur, xcur)[k];
                crate::covmath::spec_imin(c, c1) <= d.x <= crate::covmath::spec_imax(c, c1) && d.y
                    == r
            }),
    decreases iabs(c1 - c),
{
    let s = cols_ops(ax, ay, bx, byy, sgn, r, t1, xe, c1, c, tcur, xcur);
    if c == c1 {
    } else {
        let bxx = if c < c1 {
            256 * (c + 1)
        } else {
            256 * c
        };
        let cn = if c < c1 {
            c + 1
        } else {
            c - 1
        };
        let tb = crate::line::spec_iclamp(crate::line::t_at(ax, ay, bx, byy, bxx), tcur, t1);
        lemma_cols_ops_range(ax, ay, bx, byy, sgn, r, t1, xe, c1, cn, tb, bxx);
        let rest = cols_ops(ax, ay, bx, byy, sgn, r, t1, xe, c1, cn, tb, bxx);
        assert forall|k: int| 0 <= k < s.len() implies ({
            let d = #[trigger] s[k];
            crate::covmath::spec_imin(c, c1) <= d.x <= crate::covmath::spec_imax(c, c1) && d.y
                == r
        }) by {
            if k >= 1 {
                assert(s[k] == rest[k - 1]);
            }
        }
    }
}

/// Two delta lists equal up to translation, all in the raster's interior,
/// contribute the same amounts at translated positions.
proof fn lemma_ops_contrib_shift(
    s1: Seq<DeltaS>,
    s2: Seq<DeltaS>,
    dxp: int,
    dyp: int,
    w: int,
    hh: int,
    yy: int,
    xx: int,
)
    requires
        ops_shifted(s1, s2, dxp, dyp),
        forall|k: int|
            0 <= k < s1.len() ==> ({
                let d = #[trigger] s1[k];
                0 <= d.x && d.x + 1 < w && 0 <= d.x + dxp && d.x + dxp + 1 < w && 0 <= d.y && d.y
                    < hh && 0 <= d.y + dyp && d.y + dyp < hh
            }),
    ensures
        ops_contrib(s2, w, hh, yy + dyp, xx + dxp) == ops_contrib(s1, w, hh, yy, xx),
    decreases s1.len(),
{
    if s1.len() > 0 {
        assert(ops_shifted(s1.drop_last(), s2.drop_last(), dxp, dyp)) by {
            assert forall|k: int| 0 <= k < s1.len() - 1 implies ((#[trigger] s2.drop_last()[k]).x
                == s1.drop_last()[k].x + dxp && s2.drop_last()[k].y == s1.drop_last()[k].y + dyp
                && s2.drop_last()[k].h == s1.drop_last()[k].h && s2.drop_last()[k].a
                == s1.drop_last()[k].a) by {
                assert(s2.drop_last()[k] == s2[k]);
                assert(s1.drop_last()[k] == s1[k]);
            }
        }
        assert(forall|k: int|
            0 <= k < s1.len() - 1 ==> ({
                let d = #[trigger] s1.drop_last()[k];
                0 <= d.x && d.x + 1 < w && 0 <= d.x + dxp && d.x + dxp + 1 < w && 0 <= d.y && d.y
                    < hh && 0 <= d.y + dyp && d.y + dyp < hh
            })) by {
            assert forall|k: int| 0 <= k < s1.len() - 1 implies s1.drop_last()[k] == s1[k] by {}
        }
        lemma_ops_contrib_shift(s1.drop_last(), s2.drop_last(), dxp, dyp, w, hh, yy, xx);
        let d1 = s1.last();
        let d2 = s2.last();
        assert(d1 == s1[s1.len() - 1]);
        assert(d2 == s2[s1.len() - 1]);
        assert(delta_contrib(d2.x, d2.y, d2.h, d2.a, w, hh, yy + dyp, xx + dxp) == delta_contrib(
            d1.x,
            d1.y,
            d1.h,
            d1.a,
            w,
            hh,
            yy,
            xx,
        ));
    }
}

/// **Translation invariance.** Translating a segment by a whole number of
/// pixels, when both the segment and its translate stay strictly inside the
/// raster, translates its coverage contribution exactly: the deltas land at
/// the shifted cells with unchanged values.
pub proof fn lemma_translate_segment(
    p0: crate::geom::Point,
    p1: crate::geom::Point,
    q0: crate::geom::Point,
    q1: crate::geom::Point,
    dxp: int,
    dyp: int,
    w: int,
    hh: int,
    yy: int,
    xx: int,
)
    requires
        q0.x == p0.x + 256 * dxp,
        q0.y == p0.y + 256 * dyp,
        q1.x == p1.x + 256 * dxp,
        q1.y == p1.y + 256 * dyp,
        0 <= p0.y,
        p0.y <= 256 * hh,
        0 <= p1.y,
        p1.y <= 256 * hh,
        0 <= q0.y,
        q0.y <= 256 * hh,
        0 <= q1.y,
        q1.y <= 256 * hh,
        0 <= p0.x,
        0 <= p1.x,
        p0.x < 256 * (w - 1) - 255,
        p1.x < 256 * (w - 1) - 255,
        0 <= q0.x,
        0 <= q1.x,
        q0.x < 256 * (w - 1) - 255,
        q1.x < 256 * (w - 1) - 255,
    ensures
        line_contrib(q0, q1, w, hh, yy + dyp, xx + dxp) == line_contrib(p0, p1, w, hh, yy, xx),
{
    if p0.y == p1.y {
        return ;
    }
    let sgn: int = if p0.y < p1.y {
        1int
    } else {
        -1int
    };
    let ay: int = if p0.y < p1.y {
        p0.y as int
    } else {
        p1.y as int
    };
    let byy: int = if p0.y < p1.y {
        p1.y as int
    } else {
        p0.y as int
    };
    let ax: int = if p0.y < p1.y {
        p0.x as int
    } else {
        p1.x as int
    };
    let bx: int = if p0.y < p1.y {
        p1.x as int
    } else {
        p0.x as int
    };
    let dx2 = 256 * dxp;
    let dy2 = 256 * dyp;
    // Neither segment is clipped.
    assert(crate::covmath::spec_imax(ay, 0) == ay);
    assert(crate::covmath::spec_imin(byy, 256 * hh) == byy);
    assert(crate::covmath::spec_imax(ay + dy2, 0) == ay + dy2);
    assert(crate::covmath::spec_imin(byy + dy2, 256 * hh) == byy + dy2);
    lemma_div_shift(ay, dyp);
    lemma_div_shift(byy - 1, dyp);
    assert(ay + dy2 - 1 == (ay - 1) + 256 * dyp);
    lemma_div_shift(byy - 1 + dy2 - dy2, dyp);
    assert((byy + dy2 - 1) / 256 == (byy - 1) / 256 + dyp) by {
        lemma_div_shift(byy - 1, dyp);
        assert(byy + dy2 - 1 == (byy - 1) + 256 * dyp);
    }
    lemma_rows_shift(ax, ay, bx, byy, sgn, ay, byy, ay / 256, (byy - 1) / 256, dxp, dyp);
    let s1 = line_ops(p0, p1, hh);
    let s2 = line_ops(q0, q1, hh);
    assert(s1 == rows_ops(ax, ay, bx, byy, sgn, ay, byy, ay / 256, (byy - 1) / 256));
    assert(s2 == rows_ops(
        ax + dx2,
        ay + dy2,
        bx + dx2,
        byy + dy2,
        sgn,
        ay + dy2,
        byy + dy2,
        ay / 256 + dyp,
        (byy - 1) / 256 + dyp,
    ));
    assert(ops_shifted(s1, s2, dxp, dyp));
    lemma_line_ops_interior(p0, p1, ax, ay, bx, byy, sgn, w, hh, dxp, dyp);
    lemma_ops_contrib_shift(s1, s2, dxp, dyp, w, hh, yy, xx);
}

/// Every delta of an interior segment lies strictly inside the raster, and
/// so does its translate.
proof fn lemma_line_ops_interior(
    p0: crate::geom::Point,
    p1: crate::geom::Point,
    ax: int,
    ay: int,
    bx: int,
    byy: int,
    sgn: int,
    w: int,
    hh: int,
    dxp: int,
    dyp: int,
)
    requires
        p0.y != p1.y,
        sgn == (if p0.y < p1.y {
            1int
        } else {
            -1int
        }),
        ay == (if p0.y < p1.y {
            p0.y as int
        } else {
            p1.y as int
        }),
        byy == (if p0.y < p1.y {
            p1.y as int
        } else {
            p0.y as int
        }),
        ax == (if p0.y < p1.y {
            p0.x as int
        } else {
            p1.x as int
        }),
        bx == (if p0.y < p1.y {
            p1.x as int
        } else {
            p0.x as int
        }),
        0 <= ay,
        byy <= 256 * hh,
        0 <= ax,
        0 <= bx,
        ax < 256 * (w - 1) - 255,
        bx < 256 * (w - 1) - 255,
        0 <= ax + 256 * dxp,
        0 <= bx + 256 * dxp,
        ax + 256 * dxp < 256 * (w - 1) - 255,
        bx + 256 * dxp < 256 * (w - 1) - 255,
        0 <= ay + 256 * dyp,
        byy + 256 * dyp <= 256 * hh,
    ensures
        forall|k: int|
            0 <= k < line_ops(p0, p1, hh).len() ==> ({
                let d = #[trigger] line_ops(p0, p1, hh)[k];
                0 <= d.x && d.x + 1 < w && 0 <= d.x + dxp && d.x + dxp + 1 < w && 0 <= d.y && d.y
                    < hh && 0 <= d.y + dyp && d.y + dyp < hh
            }),
{
    lemma_rows_range(ax, ay, bx, byy, sgn, ay, byy, ay / 256, (byy - 1) / 256, w, hh, dxp, dyp);
    vstd::arithmetic::div_mod::lemma_div_pos_is_pos(ay, 256);
    assert(line_ops(p0, p1, hh) == rows_ops(ax, ay, bx, byy, sgn, ay, byy, ay / 256, (byy - 1)
        / 256));
}

/// Column and row bounds of the whole walk of an interior segment.
proof fn lemma_rows_range(
    ax: int,
    ay: int,
    bx: int,
    byy: int,
    sgn: int,
    ylo: int,
    yhi: int,
    r: int,
    r1: int,
    w: int,
    hh: int,
    dxp: int,
    dyp: int,
)
    requires
        ay < byy,
        ay <= ylo < yhi <= byy,
        0 <= ylo,
        ylo / 256 <= r,
        r1 == (yhi - 1) / 256,
        yhi <= 256 * hh,
        0 <= ax,
        0 <= bx,
        ax < 256 * (w - 1) - 255,
        bx < 256 * (w - 1) - 255,
        0 <= ax + 256 * dxp,
        0 <= bx + 256 * dxp,
        ax + 256 * dxp < 256 * (w - 1) - 255,
        bx + 256 * dxp < 256 * (w - 1) - 255,
        0 <= ylo + 256 * dyp,
        yhi + 256 * dyp <= 256 * hh,
    ensures
        forall|k: int|
            0 <= k < rows_ops(ax, ay, bx, byy, sgn, ylo, yhi, r, r1).len() ==> ({
                let d = #[trigger] rows_ops(ax, ay, bx, byy, sgn, ylo, yhi, r, r1)[k];
                0 <= d.x && d.x + 1 < w && 0 <= d.x + dxp && d.x + dxp + 1 < w && 0 <= d.y && d.y
                    < hh && 0 <= d.y + dyp && d.y + dyp < hh
            }),
    decreases r1 + 1 - r,
{
    let s = rows_ops(ax, ay, bx, byy, sgn, ylo, yhi, r, r1);
    if r > r1 {
    } else {
        let t0 = crate::covmath::spec_imax(ylo, 256 * r);
        let t1 = crate::covmath::spec_imin(yhi, 256 * r + 256);
        lemma_row_extent(ylo, yhi, r, r1);
        lemma_x_at_bounds_pub(ax, ay, bx, byy, t0);
        lemma_x_at_bounds_pub(ax, ay, bx, byy, t1);
        let xs = crate::line::x_at(ax, ay, bx, byy, t0);
        let xe = crate::line::x_at(ax, ay, bx, byy, t1);
        lemma_cols_ops_range(ax, ay, bx, byy, sgn, r, t1, xe, xe / 256, xs / 256, t0, xs);
        // Column bounds from the crossing bounds.
        vstd::arithmetic::div_mod::lemma_div_pos_is_pos(xs, 256);
        vstd::arithmetic::div_mod::lemma_div_pos_is_pos(xe, 256);
        vstd::arithmetic::div_mod::lemma_div_is_ordered(xs, 256 * (w - 1) - 256, 256);
        vstd::arithmetic::div_mod::lemma_div_is_ordered(xe, 256 * (w - 1) - 256, 256);
        lemma_div_shift(-256, w - 1);
        assert((256 * (w - 1) - 256) / 256 == w - 2) by {
            assert(256 * (w - 1) - 256 == -256 + 256 * (w - 1));
            assert((-256int) / 256 == -1) by (nonlinear_arith);
        }
        // Row bounds.
        vstd::arithmetic::div_mod::lemma_div_pos_is_pos(ylo, 256);
        vstd::arithmetic::div_mod::lemma_fundamental_div_mod(yhi - 1, 256);
        assert(256 * r1 <= yhi - 1);
        assert(yhi <= 256 * hh);
        assert(r1 < hh) by (nonlinear_arith)
            requires
                256 * r1 <= 256 * hh - 1,
        ;
        assert(0 <= ylo + 256 * dyp ==> 0 <= ylo / 256 + dyp) by {
            lemma_div_shift(ylo, dyp);
            vstd::arithmetic::div_mod::lemma_div_pos_is_pos(ylo + 256 * dyp, 256);
        }
        assert(yhi + 256 * dyp <= 256 * hh ==> r1 + dyp < hh) by {
            lemma_div_shift(yhi - 1, dyp);
            vstd::arithmetic::div_mod::lemma_div_is_ordered(yhi - 1 + 256 * dyp, 256 * hh - 1, 256);
            vstd::arithmetic::div_mod::lemma_fundamental_div_mod(256 * hh - 1, 256);
            assert((256 * hh - 1) / 256 == hh - 1) by {
                assert(256 * hh - 1 == (hh - 1) * 256 + 255) by (nonlinear_arith);
                vstd::arithmetic::div_mod::lemma_fundamental_div_mod_converse(
                    256 * hh - 1,
                    256,
                    hh - 1,
                    255,
                );
            }
        }
        // Shifted column bounds.
        assert forall|k: int| 0 <= k < s.len() implies ({
            let d = #[trigger] s[k];
            0 <= d.x && d.x + 1 < w && 0 <= d.x + dxp && d.x + dxp + 1 < w && 0 <= d.y && d.y
                < hh && 0 <= d.y + dyp && d.y + dyp < hh
        }) by {
            let h1 = row_ops(ax, ay, bx, byy, sgn, ylo, yhi, r);
            let rest = rows_ops(ax, ay, bx, byy, sgn, ylo, yhi, r + 1, r1);
            if k < h1.len() {
                assert(s[k] == h1[k]);
                let d = s[k];
                assert(0 <= d.x && d.x <= w - 2);
                lemma_shifted_col_bounds(d.x, ax, bx, xs, xe, w, dxp);
                assert(d.y == r);
                assert(ylo / 256 <= r <= r1);
                lemma_div_shift(ylo, dyp);
                vstd::arithmetic::div_mod::lemma_div_pos_is_pos(ylo + 256 * dyp, 256);
            } else {
                lemma_rows_range(
                    ax,
                    ay,
                    bx,
                    byy,
                    sgn,
                    ylo,
                    yhi,
                    r + 1,
                    r1,
                    w,
                    hh,
                    dxp,
                    dyp,
                );
                assert(s[k] == rest[k - h1.len()]);
            }
        }
    }
}

/// A column between the shifted crossing bounds stays strictly inside the
/// raster after the shift.
proof fn lemma_shifted_col_bounds(
    x: int,
    ax: int,
    bx: int,
    xs: int,
    xe: int,
    w: int,
    dxp: int,
)
    requires
        crate::covmath::spec_imin(xs / 256, xe / 256) <= x <= crate::covmath::spec_imax(
            xs / 256,
            xe / 256,
        ),
        crate::covmath::spec_imin(ax, bx) <= xs <= crate::covmath::spec_imax(ax, bx),
        crate::covmath::spec_imin(ax, bx) <= xe <= crate::covmath::spec_imax(ax, bx),
        0 <= ax,
        0 <= bx,
        ax < 256 * (w - 1) - 255,
        bx < 256 * (w - 1) - 255,
        0 <= ax + 256 * dxp,
        0 <= bx + 256 * dxp,
        ax + 256 * dxp < 256 * (w - 1) - 255,
        bx + 256 * dxp < 256 * (w - 1) - 255,
    ensures
        0 <= x + dxp,
        x + dxp + 1 < w,
{
    // The shift hypotheses force dxp itself into a workable range.
    let lo = crate::covmath::spec_imin(ax, bx);
    let hi = crate::covmath::spec_imax(ax, bx);
    vstd::arithmetic::div_mod::lemma_div_is_ordered(lo, xs, 256);
    vstd::arithmetic::div_mod::lemma_div_is_ordered(lo, xe, 256);
    vstd::arithmetic::div_mod::lemma_div_is_ordered(xs, hi, 256);
    vstd::arithmetic::div_mod::lemma_div_is_ordered(xe, hi, 256);
    vstd::arithmetic::div_mod::lemma_div_pos_is_pos(lo, 256);
    lemma_div_shift(lo, dxp);
    lemma_div_shift(hi, dxp);
    vstd::arithmetic::div_mod::lemma_div_pos_is_pos(lo + 256 * dxp, 256);
    vstd::arithmetic::div_mod::lemma_div_is_ordered(hi + 256 * dxp, 256 * (w - 1) - 256, 256);
    assert((256 * (w - 1) - 256) / 256 == w - 2) by {
        assert(256 * (w - 1) - 256 == (w - 2) * 256 + 0) by (nonlinear_arith);
        vstd::arithmetic::div_mod::lemma_fundamental_div_mod_converse(
            256 * (w - 1) - 256,
            256,
            w - 2,
            0,
        );
    }
    vstd::arithmetic::div_mod::lemma_div_is_ordered(hi, 256 * (w - 1) - 256, 256);
}

/// Deltas entirely at or beyond the right edge contribute nothing.
proof fn lemma_right_ops_zero(s: Seq<DeltaS>, w: int, hh: int, yy: int, xx: int)
    requires
        forall|k: int| 0 <= k < s.len() ==> (#[trigger] s[k]).x >= w,
    ensures
        ops_contrib(s, w, hh, yy, xx) == 0,
    decreases s.len(),
{
    if s.len() > 0 {
        assert(forall|k: int| 0 <= k < s.len() - 1 ==> (#[trigger] s.drop_last()[k]).x >= w) by {
            assert forall|k: int| 0 <= k < s.len() - 1 implies (#[trigger] s.drop_last()[k]).x
                >= w by {
                assert(s.drop_last()[k] == s[k]);
            }
        }
        lemma_right_ops_zero(s.drop_last(), w, hh, yy, xx);
        assert(s.last() == s[s.len() - 1]);
    }
}

/// **Closed-path neutrality, right of the viewport.** A segment whose
/// endpoints both lie at or beyond the raster's right edge is clipped away
/// entirely.
pub proof fn lemma_right_segment_neutral(
    p0: crate::geom::Point,
    p1: crate::geom::Point,
    w: int,
    hh: int,
    yy: int,
    xx: int,
)
    requires
        p0.x >= 256 * w,
        p1.x >= 256 * w,
        0 <= hh <= 0x1_0000,
    ensures
        line_contrib(p0, p1, w, hh, yy, xx) == 0,
{
    if p0.y == p1.y {
        return ;
    }
    let sgn: int = if p0.y < p1.y {
        1int
    } else {
        -1int
    };
    let ay: int = if p0.y < p1.y {
        p0.y as int
    } else {
        p1.y as int
    };
    let byy: int = if p0.y < p1.y {
        p1.y as int
    } else {
        p0.y as int
    };
    let ax: int = if p0.y < p1.y {
        p0.x as int
    } else {
        p1.x as int
    };
    let bx: int = if p0.y < p1.y {
        p1.x as int
    } else {
        p0.x as int
    };
    let ylo = crate::covmath::spec_imax(ay, 0);
    let yhi = crate::covmath::spec_imin(byy, 256 * hh);
    if ylo >= yhi {
        return ;
    }
    let r0 = ylo / 256;
    let r1 = (yhi - 1) / 256;
    vstd::arithmetic::div_mod::lemma_div_pos_is_pos(ylo, 256);
    vstd::arithmetic::div_mod::lemma_div_is_ordered(ylo, yhi - 1, 256);
    lemma_rows_right(ax, ay, bx, byy, sgn, ylo, yhi, r0, r1, w);
    lemma_right_ops_zero(
        rows_ops(ax, ay, bx, byy, sgn, ylo, yhi, r0, r1),
        w,
        hh,
        yy,
        xx,
    );
}

/// Every column a rightward-of-the-raster segment crosses is at or beyond
/// the right edge.
proof fn lemma_rows_right(
    ax: int,
    ay: int,
    bx: int,
    byy: int,
    sgn: int,
    ylo: int,
    yhi: int,
    r: int,
    r1: int,
    w: int,
)
    requires
        ay < byy,
        ay <= ylo < yhi <= byy,
        0 <= ylo,
        ylo / 256 <= r,
        r1 == (yhi - 1) / 256,
        ax >= 256 * w,
        bx >= 256 * w,
    ensures
        forall|k: int|
            0 <= k < rows_ops(ax, ay, bx, byy, sgn, ylo, yhi, r, r1).len() ==> (
            #[trigger] rows_ops(ax, ay, bx, byy, sgn, ylo, yhi, r, r1)[k]).x >= w,
    decreases r1 + 1 - r,
{
    let s = rows_ops(ax, ay, bx, byy, sgn, ylo, yhi, r, r1);
    if r > r1 {
    } else {
        let t0 = crate::covmath::spec_imax(ylo, 256 * r);
        let t1 = crate::covmath::spec_imin(yhi, 256 * r + 256);
        lemma_row_extent(ylo, yhi, r, r1);
        lemma_x_at_bounds_pub(ax, ay, bx, byy, t0);
        lemma_x_at_bounds_pub(ax, ay, bx, byy, t1);
        let xs = crate::line::x_at(ax, ay, bx, byy, t0);
        let xe = crate::line::x_at(ax, ay, bx, byy, t1);
        lemma_cols_ops_range(ax, ay, bx, byy, sgn, r, t1, xe, xe / 256, xs / 256, t0, xs);
        vstd::arithmetic::div_mod::lemma_div_is_ordered(256 * w, xs, 256);
        vstd::arithmetic::div_mod::lemma_div_is_ordered(256 * w, xe, 256);
        vstd::arithmetic::div_mod::lemma_div_multiples_vanish(w, 256);
        assert(256 * w == w * 256) by (nonlinear_arith);
        lemma_rows_right(ax, ay, bx, byy, sgn, ylo, yhi, r + 1, r1, w);
        let h1 = row_ops(ax, ay, bx, byy, sgn, ylo, yhi, r);
        let rest = rows_ops(ax, ay, bx, byy, sgn, ylo, yhi, r + 1, r1);
        assert forall|k: int| 0 <= k < s.len() implies (#[trigger] s[k]).x >= w by {
            if k < h1.len() {
                assert(s[k] == h1[k]);
            } else {
                assert(s[k] == rest[k - h1.len()]);
            }
        }
    }
}

/// Exclusive-or exposes any differing bit.
proof fn lemma_xor_bit(a: u64, b: u64, q: u64)
    by (bit_vector)
    requires
        q < 64,
    ensures
        (((a ^ b) & (1u64 << q)) != 0) <==> ((a & (1u64 << q) != 0) != (b & (1u64 << q) != 0)),
        a != b ==> a ^ b != 0,
{
}

/// A bitmask word is determined by its bits: words that agree on every
/// MSB-first bit are equal.
proof fn lemma_word_determined(a: u64, b: u64)
    requires
        forall|j: int| 0 <= j < 64 ==> crate::composite::word_bit(a, j) == crate::composite::word_bit(b, j),
    ensures
        a == b,
{
    if a != b {
        lemma_xor_bit(a, b, 0);
        crate::composite::lemma_word_nonzero_has_bit(a ^ b);
        let n = vstd::std_specs::bits::u64_leading_zeros(a ^ b);
        let q: u64 = (63 - n) as u64;
        lemma_xor_bit(a, b, q);
        assert(crate::raster::cell_mask(n) == 1u64 << q);
        assert(crate::composite::word_bit(a, n) != crate::composite::word_bit(b, n));
    }
}

/// **Bitmask determinism.** The bitmask buffer is a pure function of the
/// marked-cell set: two well-formed rasterizers of the same shape with the
/// same marks have bit-for-bit identical bitmask buffers. Together with the
/// `line_marks`/`segs_marks` contracts this fixes the bitmask contents of
/// every run — in particular, geometry whose marks are empty (clipped away
/// entirely) leaves the bitmask words untouched.
pub proof fn lemma_bitmask_determined(r1: Rasterizer, r2: Rasterizer)
    requires
        r1.wf(),
        r2.wf(),
        r1.same_dims(r2),
        r1.touched@ =~= r2.touched@,
        r1.bitmasks@.len() == r2.bitmasks@.len(),
    ensures
        r1.bitmasks@ =~= r2.bitmasks@,
{
    let bw = r1.bitmasks_width as int;
    let h = r1.height as int;
    assert forall|i: int| 0 <= i < r1.bitmasks@.len() implies r1.bitmasks@[i]
        == r2.bitmasks@[i] by {
        if i < bw * h {
            lemma_split_index_pub(i, bw, h);
            let yy = i / bw;
            let j = i % bw;
            assert forall|jb: int|
                0 <= jb < 64 implies crate::composite::word_bit(r1.bitmasks@[i], jb)
                == crate::composite::word_bit(r2.bitmasks@[i], jb) by {
                let c = 64 * j + jb;
                assert(0 <= c < 64 * bw && c / 64 == j && c % 64 == c - 64 * j)
                    by (nonlinear_arith)
                    requires
                        0 <= j < bw && 0 <= jb < 64 && c == 64 * j + jb,
                ;
                assert(crate::raster::cell_mask(c) == crate::raster::cell_mask(c % 64));
                assert(i == yy * bw + c / 64);
                assert(r1.bit_set(yy, c) == crate::composite::word_bit(r1.bitmasks@[i], jb));
                assert(r2.bit_set(yy, c) == crate::composite::word_bit(r2.bitmasks@[i], jb));
                assert(r1.bit_set(yy, c) <==> r1.touched@.contains((yy, c)));
                assert(r2.bit_set(yy, c) <==> r2.touched@.contains((yy, c)));
            }
            lemma_word_determined(r1.bitmasks@[i], r2.bitmasks@[i]);
        } else {
            assert(r1.bitmasks@[i] == 0);
            assert(r2.bitmasks@[i] == 0);
        }
    }
}

/// Split a row-major index into its row and column.
proof fn lemma_split_index_pub(i: int, w: int, h: int)
    by (nonlinear_arith)
    requires
        w > 0,
        0 <= i < w * h,
    ensures
        0 <= i / w < h,
        0 <= i % w < w,
        i == (i / w) * w + i % w,
{
}

/// **Closed-path neutrality over a segment list.** A chain of segments
/// that loops back to its start, entirely left of column zero, contributes
/// nothing to any coverage entry: this is the form a flattened closed
/// outline takes, so a draw call's per-pixel formula reduces to the old
/// pixel everywhere.
pub proof fn lemma_left_closed_segs_neutral(
    segs: Seq<crate::flatten::Line>,
    w: int,
    h: int,
    yy: int,
    xx: int,
)
    requires
        segs.len() > 0,
        forall|k: int|
            0 <= k < segs.len() ==> ((#[trigger] segs[k]).p0.wf() && segs[k].p1.wf()
                && segs[k].p0.x <= -1 && segs[k].p1.x <= -1),
        forall|k: int| 0 <= k < segs.len() - 1 ==> (#[trigger] segs[k]).p1 == segs[k + 1].p0,
        segs.last().p1 == segs[0].p0,
        0 <= yy < h,
        h <= 0x1_0000,
        w >= 0,
        0 <= xx,
    ensures
        crate::render::segs_contrib(segs, w, h, yy, xx) == 0,
{
    lemma_left_chain_telescopes(segs, w, h, yy, xx);
}

/// The running total of a leftward chain telescopes to the clamped span
/// between its first and last endpoints.
proof fn lemma_left_chain_telescopes(
    segs: Seq<crate::flatten::Line>,
    w: int,
    h: int,
    yy: int,
    xx: int,
)
    requires
        segs.len() > 0,
        forall|k: int|
            0 <= k < segs.len() ==> ((#[trigger] segs[k]).p0.wf() && segs[k].p1.wf()
                && segs[k].p0.x <= -1 && segs[k].p1.x <= -1),
        forall|k: int| 0 <= k < segs.len() - 1 ==> (#[trigger] segs[k]).p1 == segs[k + 1].p0,
        0 <= yy < h,
        h <= 0x1_0000,
        w >= 0,
        0 <= xx,
    ensures
        crate::render::segs_contrib(segs, w, h, yy, xx) == (if xx == 0 {
            512 * (spec_yclamp(segs.last().p1.y as int, yy, h) - spec_yclamp(
                segs[0].p0.y as int,
                yy,
                h,
            ))
        } else {
            0
        }),
    decreases segs.len(),
{
    let last = segs.last();
    lemma_left_segment_folds(last.p0, last.p1, w, h, yy, xx);
    assert(crate::render::segs_contrib(segs, w, h, yy, xx) == crate::render::segs_contrib(
        segs.drop_last(),
        w,
        h,
        yy,
        xx,
    ) + line_contrib(last.p0, last.p1, w, h, yy, xx));
    if segs.len() == 1 {
        assert(segs.drop_last().len() == 0);
        assert(crate::render::segs_contrib(segs.drop_last(), w, h, yy, xx) == 0);
        assert(segs.last() == segs[0]);
    } else {
        assert(forall|k: int|
            0 <= k < segs.len() - 1 ==> ((#[trigger] segs.drop_last()[k]).p0.wf()
                && segs.drop_last()[k].p1.wf() && segs.drop_last()[k].p0.x <= -1
                && segs.drop_last()[k].p1.x <= -1)) by {
            assert forall|k: int| 0 <= k < segs.len() - 1 implies segs.drop_last()[k]
                == segs[k] by {}
        }
        assert(forall|k: int|
            0 <= k < segs.len() - 2 ==> (#[trigger] segs.drop_last()[k]).p1 == segs.drop_last()[k
                + 1].p0) by {
            assert forall|k: int| 0 <= k < segs.len() - 1 implies segs.drop_last()[k]
                == segs[k] by {}
        }
        lemma_left_chain_telescopes(segs.drop_last(), w, h, yy, xx);
        assert(segs.drop_last().last() == segs[segs.len() - 2]);
        assert(segs.drop_last()[0] == segs[0]);
        assert(segs[segs.len() - 2].p1 == last.p0);
    }
}

/// Deltas entirely at or beyond the right edge mark nothing either.
proof fn lemma_right_ops_marks_empty(s: Seq<DeltaS>, w: int, h: int)
    requires
        forall|k: int| 0 <= k < s.len() ==> (#[trigger] s[k]).x >= w,
    ensures
        ops_marks(s, w, h) =~= Set::<(int, int)>::empty(),
    decreases s.len(),
{
    if s.len() > 0 {
        assert(forall|k: int| 0 <= k < s.len() - 1 ==> (#[trigger] s.drop_last()[k]).x >= w) by {
            assert forall|k: int| 0 <= k < s.len() - 1 implies (#[trigger] s.drop_last()[k]).x
                >= w by {
                assert(s.drop_last()[k] == s[k]);
            }
        }
        lemma_right_ops_marks_empty(s.drop_last(), w, h);
        assert(s.last() == s[s.len() - 1]);
    }
}

/// A segment at or beyond the right edge leaves no mark at all: its
/// bitmask words stay untouched (with [`lemma_bitmask_determined`]),
/// exactly as its coverage does.
pub proof fn lemma_right_segment_marks_empty(
    p0: crate::geom::Point,
    p1: crate::geom::Point,
    w: int,
    hh: int,
)
    requires
        p0.x >= 256 * w,
        p1.x >= 256 * w,
        0 <= hh <= 0x1_0000,
    ensures
        crate::line::line_marks(p0, p1, w, hh) =~= Set::<(int, int)>::empty(),
{
    if p0.y == p1.y {
        return ;
    }
    let sgn: int = if p0.y < p1.y {
        1int
    } else {
        -1int
    };
    let ay: int = if p0.y < p1.y {
        p0.y as int
    } else {
        p1.y as int
    };
    let byy: int = if p0.y < p1.y {
        p1.y as int
    } else {
        p0.y as int
    };
    let ax: int = if p0.y < p1.y {
        p0.x as int
    } else {
        p1.x as int
    };
    let bx: int = if p0.y < p1.y {
        p1.x as int
    } else {
        p0.x as int
    };
    let ylo = crate::covmath::spec_imax(ay, 0);
    let yhi = crate::covmath::spec_imin(byy, 256 * hh);
    if ylo >= yhi {
        return ;
    }
    let r0 = ylo / 256;
    let r1 = (yhi - 1) / 256;
    vstd::arithmetic::div_mod::lemma_div_pos_is_pos(ylo, 256);
    vstd::arithmetic::div_mod::lemma_div_is_ordered(ylo, yhi - 1, 256);
    lemma_rows_right(ax, ay, bx, byy, sgn, ylo, yhi, r0, r1, w);
    lemma_right_ops_marks_empty(rows_ops(ax, ay, bx, byy, sgn, ylo, yhi, r0, r1), w, hh);
}

/// **Closed-path neutrality, above or below the viewport.** A segment whose
/// endpoints both lie above the raster, or both below it, is clipped away
/// entirely: it contributes no coverage and marks no cell.
pub proof fn lemma_vertical_outside_neutral(
    p0: crate::geom::Point,
    p1: crate::geom::Point,
    w: int,
    h: int,
    yy: int,
    xx: int,
)
    requires
        (p0.y <= 0 && p1.y <= 0) || (p0.y >= 256 * h && p1.y >= 256 * h),
        h >= 0,
    ensures
        line_contrib(p0, p1, w, h, yy, xx) == 0,
        crate::line::line_marks(p0, p1, w, h) =~= Set::<(int, int)>::empty(),
{
}

} // verus!
