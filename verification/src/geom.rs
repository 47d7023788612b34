//! Geometry primitives.
//!
//! Coordinates are fixed-point: `FX_ONE` (256) units make one device pixel.
//! Every operation clamps its result to `±MAX_COORD`, so transformed
//! coordinates always stay inside the range the rasterizer accepts and no
//! arithmetic here can overflow.

use vstd::prelude::*;

use crate::MAX_COORD;
use crate::FX_ONE;

verus! {

/// A 2D point (or vector) in fixed-point device coordinates.
#[derive(Clone, Copy, PartialEq, Eq, Structural, Debug)]
pub struct Point {
    pub x: i64,
    pub y: i64,
}

/// Clamp a value into `[-MAX_COORD, MAX_COORD]`.
pub open spec fn spec_clamp_coord(v: int) -> int {
    if v < -MAX_COORD {
        -MAX_COORD as int
    } else if v > MAX_COORD {
        MAX_COORD as int
    } else {
        v
    }
}

/// Floor division by a positive divisor (rounds toward negative infinity),
/// which for a positive divisor agrees with mathematical integer division.
pub fn floor_div(n: i64, d: i64) -> (q: i64)
    requires
        0 < d,
        -0x2000_0000_0000_0000 < n < 0x2000_0000_0000_0000,
    ensures
        q == n as int / d as int,
{
    if n >= 0 {
        ((n as u64) / (d as u64)) as i64
    } else {
        let m: u64 = (-n) as u64;
        let mq: u64 = m / (d as u64);
        let mr: u64 = m % (d as u64);
        proof {
            vstd::arithmetic::div_mod::lemma_fundamental_div_mod(m as int, d as int);
            if mr == 0 {
                assert(n as int == (-(mq as int)) * d + 0) by (nonlinear_arith)
                    requires
                        m as int == mq as int * d as int + mr as int && n as int == -(m as int)
                            && mr == 0,
                ;
                vstd::arithmetic::div_mod::lemma_fundamental_div_mod_converse(
                    n as int,
                    d as int,
                    -(mq as int),
                    0,
                );
            } else {
                assert(n as int == (-(mq as int) - 1) * d + (d - mr)) by (nonlinear_arith)
                    requires
                        m as int == mq as int * d as int + mr as int && n as int == -(m as int),
                ;
                vstd::arithmetic::div_mod::lemma_fundamental_div_mod_converse(
                    n as int,
                    d as int,
                    -(mq as int) - 1,
                    d - mr,
                );
            }
        }
        if mr == 0 {
            -(mq as i64)
        } else {
            -(mq as i64) - 1
        }
    }
}

impl Point {
    pub open spec fn wf(self) -> bool {
        -MAX_COORD <= self.x <= MAX_COORD && -MAX_COORD <= self.y <= MAX_COORD
    }

    /// Build a point; coordinates are clamped into the accepted range.
    pub fn new(x: i64, y: i64) -> (p: Point)
        ensures
            p.x == spec_clamp_coord(x as int),
            p.y == spec_clamp_coord(y as int),
            p.wf(),
    {
        Point { x: clamp_coord(x), y: clamp_coord(y) }
    }
}

/// Clamp a coordinate into the accepted range.
pub fn clamp_coord(v: i64) -> (r: i64)
    ensures
        r == spec_clamp_coord(v as int),
        -MAX_COORD <= r <= MAX_COORD,
{
    if v < -MAX_COORD {
        -MAX_COORD
    } else if v > MAX_COORD {
        MAX_COORD
    } else {
        v
    }
}

/// An affine transform. The linear part is fixed-point (`FX_ONE` is 1.0);
/// the translation is in fixed-point device coordinates. Maps `(x, y)` to
/// `((a*x + b*y)/FX_ONE + tx, (c*x + d*y)/FX_ONE + ty)`, clamped.
#[derive(Clone, Copy, PartialEq, Eq, Structural, Debug)]
pub struct Affine {
    pub a: i64,
    pub b: i64,
    pub c: i64,
    pub d: i64,
    pub tx: i64,
    pub ty: i64,
}

/// The x coordinate an affine transform sends a point to, before clamping.
pub open spec fn spec_apply_x(t: Affine, x: int, y: int) -> int {
    (t.a * x + t.b * y) / (FX_ONE as int) + t.tx
}

pub open spec fn spec_apply_y(t: Affine, x: int, y: int) -> int {
    (t.c * x + t.d * y) / (FX_ONE as int) + t.ty
}

/// The result of composing two transforms, coefficient by coefficient.
pub open spec fn spec_compose(s: Affine, o: Affine) -> Affine {
    Affine {
        a: spec_clamp_coord((s.a * o.a + s.b * o.c) / (FX_ONE as int)) as i64,
        b: spec_clamp_coord((s.a * o.b + s.b * o.d) / (FX_ONE as int)) as i64,
        c: spec_clamp_coord((s.c * o.a + s.d * o.c) / (FX_ONE as int)) as i64,
        d: spec_clamp_coord((s.c * o.b + s.d * o.d) / (FX_ONE as int)) as i64,
        tx: spec_clamp_coord(spec_apply_x(s, o.tx as int, o.ty as int)) as i64,
        ty: spec_clamp_coord(spec_apply_y(s, o.tx as int, o.ty as int)) as i64,
    }
}

impl Affine {
    /// All six coefficients within the accepted coordinate range.
    pub open spec fn wf(self) -> bool {
        &&& -MAX_COORD <= self.a <= MAX_COORD
        &&& -MAX_COORD <= self.b <= MAX_COORD
        &&& -MAX_COORD <= self.c <= MAX_COORD
        &&& -MAX_COORD <= self.d <= MAX_COORD
        &&& -MAX_COORD <= self.tx <= MAX_COORD
        &&& -MAX_COORD <= self.ty <= MAX_COORD
    }

    /// The identity transform.
    pub fn id() -> (t: Affine)
        ensures
            t == (Affine { a: FX_ONE, b: 0, c: 0, d: FX_ONE, tx: 0, ty: 0 }),
            t.wf(),
    {
        Affine { a: FX_ONE, b: 0, c: 0, d: FX_ONE, tx: 0, ty: 0 }
    }

    /// Translation by a fixed-point vector.
    pub fn translate(tx: i64, ty: i64) -> (t: Affine)
        ensures
            t.a == FX_ONE && t.b == 0 && t.c == 0 && t.d == FX_ONE,
            t.tx == spec_clamp_coord(tx as int),
            t.ty == spec_clamp_coord(ty as int),
            t.wf(),
    {
        Affine { a: FX_ONE, b: 0, c: 0, d: FX_ONE, tx: clamp_coord(tx), ty: clamp_coord(ty) }
    }

    /// Uniform scale; `s` is fixed-point (`FX_ONE` scales by 1.0).
    pub fn scale(s: i64) -> (t: Affine)
        ensures
            t.a == spec_clamp_coord(s as int) && t.b == 0 && t.c == 0 && t.d == spec_clamp_coord(
                s as int,
            ),
            t.tx == 0 && t.ty == 0,
            t.wf(),
    {
        let sc = clamp_coord(s);
        Affine { a: sc, b: 0, c: 0, d: sc, tx: 0, ty: 0 }
    }

    /// Apply the transform to a point; the result is clamped coordinate-wise.
    pub fn apply(&self, p: Point) -> (q: Point)
        requires
            self.wf(),
            p.wf(),
        ensures
            q.x == spec_clamp_coord(spec_apply_x(*self, p.x as int, p.y as int)),
            q.y == spec_clamp_coord(spec_apply_y(*self, p.x as int, p.y as int)),
            q.wf(),
    {
        proof {
            lemma_mul_bound(self.a as int, p.x as int);
            lemma_mul_bound(self.b as int, p.y as int);
            lemma_mul_bound(self.c as int, p.x as int);
            lemma_mul_bound(self.d as int, p.y as int);
        }
        let xs: i64 = self.a * p.x + self.b * p.y;
        let ys: i64 = self.c * p.x + self.d * p.y;
        let x: i64 = floor_div(xs, FX_ONE) + self.tx;
        let y: i64 = floor_div(ys, FX_ONE) + self.ty;
        Point { x: clamp_coord(x), y: clamp_coord(y) }
    }

    /// Compose two transforms: applying the result is applying `other`, then
    /// `self`, up to fixed-point rounding and clamping of the coefficients.
    pub fn compose(&self, other: &Affine) -> (t: Affine)
        requires
            self.wf(),
            other.wf(),
        ensures
            t == spec_compose(*self, *other),
            t.wf(),
    {
        proof {
            lemma_mul_bound(self.a as int, other.a as int);
            lemma_mul_bound(self.b as int, other.c as int);
            lemma_mul_bound(self.a as int, other.b as int);
            lemma_mul_bound(self.b as int, other.d as int);
            lemma_mul_bound(self.c as int, other.a as int);
            lemma_mul_bound(self.d as int, other.c as int);
            lemma_mul_bound(self.c as int, other.b as int);
            lemma_mul_bound(self.d as int, other.d as int);
        }
        let a = clamp_coord(floor_div(self.a * other.a + self.b * other.c, FX_ONE));
        let b = clamp_coord(floor_div(self.a * other.b + self.b * other.d, FX_ONE));
        let c = clamp_coord(floor_div(self.c * other.a + self.d * other.c, FX_ONE));
        let d = clamp_coord(floor_div(self.c * other.b + self.d * other.d, FX_ONE));
        let tr = self.apply(Point { x: other.tx, y: other.ty });
        Affine { a, b, c, d, tx: tr.x, ty: tr.y }
    }
}

/// Products of range-clamped values stay well inside `i64`.
proof fn lemma_mul_bound(a: int, b: int)
    by (nonlinear_arith)
    requires
        -MAX_COORD <= a <= MAX_COORD,
        -MAX_COORD <= b <= MAX_COORD,
    ensures
        -0x1000_0000_0000_0000 < a * b < 0x1000_0000_0000_0000,
{
}

} // verus!
