//! Integer device-space bounds of a transformed path.

use vstd::prelude::*;

use crate::covmath::iabs;
use crate::covmath::spec_imax;
use crate::geom::spec_apply_x;
use crate::geom::spec_apply_y;
use crate::geom::spec_clamp_coord;
use crate::geom::Affine;
use crate::path::Command;
use crate::path::Path;
use crate::FX_ONE;

verus! {

/// An integer pixel rectangle: columns `x0..x1`, rows `y0..y1`.
#[derive(Clone, Copy, PartialEq, Eq, Structural, Debug)]
pub struct Bbox {
    pub x0: i32,
    pub y0: i32,
    pub x1: i32,
    pub y1: i32,
}

impl Bbox {
    /// A rectangle is empty when either side is not positive.
    pub fn is_empty(&self) -> (r: bool)
        ensures
            r == (self.x1 <= self.x0 || self.y1 <= self.y0),
    {
        self.x1 <= self.x0 || self.y1 <= self.y0
    }
}

/// Truncate a fixed-point coordinate to a whole pixel, rounding toward zero
/// (the conversion a float-to-integer cast performs).
pub open spec fn spec_trunc_px(v: int) -> int {
    if v >= 0 {
        v / (FX_ONE as int)
    } else {
        -((-v) / (FX_ONE as int))
    }
}

pub open spec fn spec_min2(a: int, b: int) -> int {
    if a <= b {
        a
    } else {
        b
    }
}

pub open spec fn spec_max2(a: int, b: int) -> int {
    if a >= b {
        a
    } else {
        b
    }
}

pub open spec fn spec_clamp(v: int, lo: int, hi: int) -> int {
    if v < lo {
        lo
    } else if v > hi {
        hi
    } else {
        v
    }
}

/// The transformed x coordinate of a point, as `Affine::apply` computes it.
pub open spec fn tx_x(t: Affine, x: int, y: int) -> int {
    spec_clamp_coord(spec_apply_x(t, x, y))
}

pub open spec fn tx_y(t: Affine, x: int, y: int) -> int {
    spec_clamp_coord(spec_apply_y(t, x, y))
}

/// Smallest transformed x coordinate over the points of a command list,
/// starting from `init`.
pub open spec fn fold_min_x(s: Seq<Command>, t: Affine, init: int) -> int
    decreases s.len(),
{
    if s.len() == 0 {
        init
    } else {
        let prev = fold_min_x(s.drop_last(), t, init);
        match s.last().point() {
            Some(p) => spec_min2(prev, tx_x(t, p.x as int, p.y as int)),
            None => prev,
        }
    }
}

pub open spec fn fold_min_y(s: Seq<Command>, t: Affine, init: int) -> int
    decreases s.len(),
{
    if s.len() == 0 {
        init
    } else {
        let prev = fold_min_y(s.drop_last(), t, init);
        match s.last().point() {
            Some(p) => spec_min2(prev, tx_y(t, p.x as int, p.y as int)),
            None => prev,
        }
    }
}

pub open spec fn fold_max_x(s: Seq<Command>, t: Affine, init: int) -> int
    decreases s.len(),
{
    if s.len() == 0 {
        init
    } else {
        let prev = fold_max_x(s.drop_last(), t, init);
        match s.last().point() {
            Some(p) => spec_max2(prev, tx_x(t, p.x as int, p.y as int)),
            None => prev,
        }
    }
}

pub open spec fn fold_max_y(s: Seq<Command>, t: Affine, init: int) -> int
    decreases s.len(),
{
    if s.len() == 0 {
        init
    } else {
        let prev = fold_max_y(s.drop_last(), t, init);
        match s.last().point() {
            Some(p) => spec_max2(prev, tx_y(t, p.x as int, p.y as int)),
            None => prev,
        }
    }
}

/// What `fill` returns: fixed-point bounds of the transformed control points
/// (started from the far corners of the clip), truncated to pixels, padded by
/// one pixel on the high side, and clamped to the clip rectangle. `dil_x`
/// and `dil_y` are fixed-point dilations added on every side of the
/// respective axis before truncation.
pub open spec fn spec_bbox(path: Path, t: Affine, clip: Bbox, dil_x: int, dil_y: int) -> Bbox {
    let mnx = fold_min_x(path.view(), t, clip.x1 as int * FX_ONE as int) - dil_x;
    let mny = fold_min_y(path.view(), t, clip.y1 as int * FX_ONE as int) - dil_y;
    let mxx = fold_max_x(path.view(), t, clip.x0 as int * FX_ONE as int) + dil_x;
    let mxy = fold_max_y(path.view(), t, clip.y0 as int * FX_ONE as int) + dil_y;
    Bbox {
        x0: spec_clamp(spec_trunc_px(mnx), clip.x0 as int, clip.x1 as int) as i32,
        y0: spec_clamp(spec_trunc_px(mny), clip.y0 as int, clip.y1 as int) as i32,
        x1: spec_clamp(spec_trunc_px(mxx + FX_ONE), clip.x0 as int, clip.x1 as int) as i32,
        y1: spec_clamp(spec_trunc_px(mxy + FX_ONE), clip.y0 as int, clip.y1 as int) as i32,
    }
}

/// Truncate a fixed-point coordinate to a whole pixel, toward zero.
fn trunc_px(v: i64) -> (r: i64)
    requires
        -0x2000_0000_0000_0000 <= v <= 0x2000_0000_0000_0000,
    ensures
        r == spec_trunc_px(v as int),
{
    if v >= 0 {
        ((v as u64) / 256) as i64
    } else {
        -((((-v) as u64) / 256) as i64)
    }
}

fn clamp_i64(v: i64, lo: i64, hi: i64) -> (r: i64)
    ensures
        r == spec_clamp(v as int, lo as int, hi as int),
{
    if v < lo {
        lo
    } else if v > hi {
        hi
    } else {
        v
    }
}

/// Smallest integer rectangle, clamped to `clip`, containing every control
/// point of `path` transformed by `transform`, with one pixel of padding on
/// the high side.
pub fn fill(path: &Path, transform: Affine, clip: Bbox) -> (r: Bbox)
    requires
        path.wf(),
        transform.wf(),
    ensures
        r == spec_bbox(*path, transform, clip, 0, 0),
{
    bounds(path, transform, clip, 0, 0)
}

/// The per-axis dilations a stroked path's bounds need: the extreme
/// components of the transformed half-stroke vectors along both axes.
pub open spec fn spec_stroke_dilations(width: int, t: Affine) -> (int, int) {
    let hw = width / 2;
    (
        spec_imax(iabs(t.a * hw / 256), iabs(t.b * hw / 256)),
        spec_imax(iabs(t.c * hw / 256), iabs(t.d * hw / 256)),
    )
}

/// What `stroke` returns: the fill bounds dilated on every side by the
/// transformed half-stroke vector's extremes along each axis.
pub open spec fn spec_stroke_bbox(path: Path, width: int, t: Affine, clip: Bbox) -> Bbox {
    let dil = spec_stroke_dilations(width, t);
    spec_bbox(path, t, clip, dil.0, dil.1)
}

/// Like [`fill`], additionally dilated on every side by the transformed
/// half-stroke vector (the stroke expander offsets segments by half the
/// width before transforming them).
pub fn stroke(path: &Path, width: i64, transform: Affine, clip: Bbox) -> (r: Bbox)
    requires
        path.wf(),
        transform.wf(),
        0 <= width <= crate::MAX_COORD,
    ensures
        r == spec_stroke_bbox(*path, width as int, transform, clip),
{
    let hw = width / 2;
    proof {
        assert(-0x8_0000_0000_0000 <= transform.a as int * hw as int && (transform.a as int
            * hw as int) <= 0x8_0000_0000_0000 && -0x8_0000_0000_0000 <= transform.b as int
            * hw as int && (transform.b as int * hw as int) <= 0x8_0000_0000_0000
            && -0x8_0000_0000_0000 <= transform.c as int * hw as int && (transform.c as int
            * hw as int) <= 0x8_0000_0000_0000 && -0x8_0000_0000_0000 <= transform.d as int
            * hw as int && (transform.d as int * hw as int) <= 0x8_0000_0000_0000)
            by (nonlinear_arith)
            requires
                -0x400_0000 <= transform.a <= 0x400_0000 && -0x400_0000 <= transform.b
                    <= 0x400_0000 && -0x400_0000 <= transform.c <= 0x400_0000 && -0x400_0000
                    <= transform.d <= 0x400_0000 && 0 <= hw <= 0x200_0000,
        ;
        crate::line::lemma_div_magnitude(transform.a as int * hw as int, 256);
        crate::line::lemma_div_magnitude(transform.b as int * hw as int, 256);
        crate::line::lemma_div_magnitude(transform.c as int * hw as int, 256);
        crate::line::lemma_div_magnitude(transform.d as int * hw as int, 256);
    }
    let vax = abs_i64(crate::geom::floor_div(transform.a * hw, 256));
    let vbx = abs_i64(crate::geom::floor_div(transform.b * hw, 256));
    let vcy = abs_i64(crate::geom::floor_div(transform.c * hw, 256));
    let vdy = abs_i64(crate::geom::floor_div(transform.d * hw, 256));
    let dil_x = if vax >= vbx {
        vax
    } else {
        vbx
    };
    let dil_y = if vcy >= vdy {
        vcy
    } else {
        vdy
    };
    bounds(path, transform, clip, dil_x, dil_y)
}

/// The absolute value of a coordinate-sized quantity.
fn abs_i64(v: i64) -> (r: i64)
    requires
        -0x4000_0000_0000_0000 < v < 0x4000_0000_0000_0000,
    ensures
        r as int == iabs(v as int),
{
    if v < 0 {
        -v
    } else {
        v
    }
}

fn bounds(path: &Path, transform: Affine, clip: Bbox, dil_x: i64, dil_y: i64) -> (r: Bbox)
    requires
        path.wf(),
        transform.wf(),
        0 <= dil_x <= 0x1000_0000_0000,
        0 <= dil_y <= 0x1000_0000_0000,
    ensures
        r == spec_bbox(*path, transform, clip, dil_x as int, dil_y as int),
{
    let ghost s = path.view();
    let mut mnx: i64 = clip.x1 as i64 * FX_ONE;
    let mut mny: i64 = clip.y1 as i64 * FX_ONE;
    let mut mxx: i64 = clip.x0 as i64 * FX_ONE;
    let mut mxy: i64 = clip.y0 as i64 * FX_ONE;
    let n = path.cmds.len();
    let mut i: usize = 0;
    while i < n
        invariant
            n == s.len(),
            0 <= i <= n,
            s == path.view(),
            path.wf(),
            transform.wf(),
            mnx == fold_min_x(s.take(i as int), transform, clip.x1 as int * FX_ONE as int),
            mny == fold_min_y(s.take(i as int), transform, clip.y1 as int * FX_ONE as int),
            mxx == fold_max_x(s.take(i as int), transform, clip.x0 as int * FX_ONE as int),
            mxy == fold_max_y(s.take(i as int), transform, clip.y0 as int * FX_ONE as int),
            -0x8_0000_0000_0000 <= mnx <= 0x8_0000_0000_0000,
            -0x8_0000_0000_0000 <= mny <= 0x8_0000_0000_0000,
            -0x8_0000_0000_0000 <= mxx <= 0x8_0000_0000_0000,
            -0x8_0000_0000_0000 <= mxy <= 0x8_0000_0000_0000,
        decreases n - i,
    {
        let cmd = path.cmds[i];
        proof {
            assert(s.take(i + 1).drop_last() =~= s.take(i as int));
            assert(s.take(i + 1).last() == s[i as int]);
            assert(s[i as int].wf());
        }
        match cmd {
            Command::Move(p) => {
                let q = transform.apply(p);
                if q.x < mnx {
                    mnx = q.x;
                }
                if q.y < mny {
                    mny = q.y;
                }
                if q.x > mxx {
                    mxx = q.x;
                }
                if q.y > mxy {
                    mxy = q.y;
                }
            },
            Command::Line(p) => {
                let q = transform.apply(p);
                if q.x < mnx {
                    mnx = q.x;
                }
                if q.y < mny {
                    mny = q.y;
                }
                if q.x > mxx {
                    mxx = q.x;
                }
                if q.y > mxy {
                    mxy = q.y;
                }
            },
            Command::Close => {},
        }
        i = i + 1;
    }
    proof {
        assert(s.take(n as int) =~= s);
    }
    let x0 = clamp_i64(trunc_px(mnx - dil_x), clip.x0 as i64, clip.x1 as i64);
    let y0 = clamp_i64(trunc_px(mny - dil_y), clip.y0 as i64, clip.y1 as i64);
    let x1 = clamp_i64(trunc_px(mxx + dil_x + FX_ONE), clip.x0 as i64, clip.x1 as i64);
    let y1 = clamp_i64(trunc_px(mxy + dil_y + FX_ONE), clip.y0 as i64, clip.y1 as i64);
    Bbox { x0: x0 as i32, y0: y0 as i32, x1: x1 as i32, y1: y1 as i32 }
}

} // verus!
