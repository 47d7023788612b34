//! Blending one source color over destination pixels.
//!
//! Coverage drives a `src-over` blend, computed in exact integer arithmetic:
//! with coverage `c` (out of `COV_ONE`), source alpha `al` and a premultiplied
//! source channel value `al*s/255`, a destination channel `d` becomes
//! `(c*al*s + (255*COV_ONE - c*al)*d) / (255*COV_ONE)`, truncated. Uniform
//! spans take two fast paths: fully covered opaque spans store the packed
//! source directly, and almost-transparent spans are skipped.

use vstd::prelude::*;

use crate::color::pack_argb;
use crate::color::Color;
use crate::covmath::iabs;
use crate::covmath::spec_imin;
use crate::COV_ONE;

verus! {

/// Coverage from a running sum: saturate its magnitude at one full pixel
/// (the non-zero winding rule).
pub open spec fn sat_cov(a: int) -> int {
    spec_imin(iabs(a), COV_ONE as int)
}

/// One blended channel: source channel `s` weighted by coverage and source
/// alpha, over destination channel `d`, truncated.
pub open spec fn blend_channel(c: int, al: int, s: int, d: int) -> int {
    (c * al * s + (255 * COV_ONE - c * al) * d) / (255 * COV_ONE)
}

/// A whole pixel blended: each channel of the packed destination word `d`
/// blended with the matching source channel (alpha blends toward 255).
pub open spec fn blend_pixel(c: int, color: Color, d: int) -> int {
    pack_argb(
        blend_channel(c, color.spec_a(), 255, d / 0x100_0000),
        blend_channel(c, color.spec_a(), color.spec_r(), (d / 0x1_0000) % 0x100),
        blend_channel(c, color.spec_a(), color.spec_g(), (d / 0x100) % 0x100),
        blend_channel(c, color.spec_a(), color.spec_b(), d % 0x100),
    )
}

/// A pixel in a uniform span: stored directly when the span is opaque and
/// (nearly) fully covered, blended when visibly covered, skipped otherwise.
pub open spec fn span_pixel(c: int, color: Color, d: int) -> int {
    if 510 * c > 509 * COV_ONE && color.spec_a() == 255 {
        color.spec_packed()
    } else if 510 * c > COV_ONE {
        blend_pixel(c, color, d)
    } else {
        d
    }
}

/// What the compositor writes over destination pixel `d`: pixels of marked
/// (edge) cells are blended at their own coverage, pixels of unmarked cells
/// take the uniform-span treatment.
pub open spec fn out_pixel(edge: bool, c: int, color: Color, d: int) -> int {
    if edge {
        blend_pixel(c, color, d)
    } else {
        span_pixel(c, color, d)
    }
}

/// A blended channel stays a channel: it lands in `0..=255`.
pub proof fn lemma_blend_channel_bounds(c: int, al: int, s: int, d: int)
    requires
        0 <= c <= COV_ONE,
        0 <= al <= 255,
        0 <= s <= 255,
        0 <= d <= 255,
    ensures
        0 <= blend_channel(c, al, s, d) <= 255,
{
    let ca = c * al;
    let denom = 255 * COV_ONE as int;
    assert(0 <= ca <= denom) by (nonlinear_arith)
        requires
            0 <= c <= COV_ONE && 0 <= al <= 255 && ca == c * al && denom == 255 * COV_ONE,
    ;
    let num = ca * s + (denom - ca) * d;
    assert(0 <= num <= 255 * denom) by (nonlinear_arith)
        requires
            0 <= ca <= denom && 0 <= s <= 255 && 0 <= d <= 255 && num == ca * s + (denom - ca) * d,
    ;
    assert(num / denom <= 255 && 0 <= num / denom) by (nonlinear_arith)
        requires
            0 <= num <= 255 * denom && denom > 0,
    ;
}

/// Blending at coverage zero gives the destination back.
pub proof fn lemma_blend_zero(color: Color, d: int)
    requires
        0 <= d < 0x1_0000_0000,
    ensures
        blend_pixel(0, color, d) == d,
{
    let denom = 255 * COV_ONE as int;
    assert forall|s: int, dd: int| 0 <= dd <= 255 implies blend_channel(0, color.spec_a(), s, dd)
        == dd by {
        assert(0 * color.spec_a() == 0) by (nonlinear_arith);
        assert(0 * color.spec_a() * s == 0) by (nonlinear_arith);
        assert((denom - 0) * dd == denom * dd) by (nonlinear_arith);
        assert(denom * dd / denom == dd) by (nonlinear_arith)
            requires
                denom > 0,
        ;
    }
    crate::color::lemma_pack_unpack(
        d / 0x100_0000,
        (d / 0x1_0000) % 0x100,
        (d / 0x100) % 0x100,
        d % 0x100,
    );
    lemma_unpack_bounds(d);
    lemma_repack(d);
}

/// The four unpacked channels of a 32-bit word are bytes.
pub proof fn lemma_unpack_bounds(d: int)
    by (nonlinear_arith)
    requires
        0 <= d < 0x1_0000_0000,
    ensures
        0 <= d / 0x100_0000 <= 255,
        0 <= (d / 0x1_0000) % 0x100 <= 255,
        0 <= (d / 0x100) % 0x100 <= 255,
        0 <= d % 0x100 <= 255,
{
}

/// Unpacking a word into bytes and packing them again is the identity.
pub proof fn lemma_repack(d: int)
    by (nonlinear_arith)
    requires
        0 <= d < 0x1_0000_0000,
    ensures
        pack_argb(d / 0x100_0000, (d / 0x1_0000) % 0x100, (d / 0x100) % 0x100, d % 0x100) == d,
{
}

/// Blending at full coverage with an opaque color stores the color exactly.
pub proof fn lemma_blend_full_opaque(color: Color, d: int)
    requires
        0 <= d < 0x1_0000_0000,
        color.spec_a() == 255,
    ensures
        blend_pixel(COV_ONE as int, color, d) == color.spec_packed(),
{
    let denom = 255 * COV_ONE as int;
    let ca = COV_ONE as int * 255;
    assert forall|s: int, dd: int|
        0 <= s <= 255 && 0 <= dd <= 255 implies blend_channel(COV_ONE as int, 255, s, dd)
        == s by {
        assert(ca == denom) by (nonlinear_arith)
            requires
                ca == COV_ONE as int * 255 && denom == 255 * COV_ONE,
        ;
        assert(ca * s + (denom - ca) * dd == denom * s) by (nonlinear_arith)
            requires
                ca == denom,
        ;
        assert(denom * s / denom == s) by (nonlinear_arith)
            requires
                denom > 0,
        ;
    }
    lemma_unpack_bounds(d);
}

/// Saturate a running coverage sum.
pub fn sat_cov_exec(a: i64) -> (c: i64)
    requires
        -0x7000_0000_0000_0000 < a < 0x7000_0000_0000_0000,
    ensures
        c as int == sat_cov(a as int),
        0 <= c <= COV_ONE,
{
    let v = if a < 0 {
        -a
    } else {
        a
    };
    if v > COV_ONE {
        COV_ONE
    } else {
        v
    }
}

/// Blend one pixel at coverage `c`.
pub fn blend_px(c: i64, color: &Color, d: u32) -> (r: u32)
    requires
        0 <= c <= COV_ONE,
    ensures
        r as int == blend_pixel(c as int, *color, d as int),
{
    let al = color.a() as i64;
    let rs = color.r() as i64;
    let gs = color.g() as i64;
    let bs = color.b() as i64;
    let da = (d / 0x100_0000) as i64;
    let dr = ((d / 0x1_0000) % 0x100) as i64;
    let dg = ((d / 0x100) % 0x100) as i64;
    let db = (d % 0x100) as i64;
    proof {
        assert(0 <= (c as int) * (al as int) <= 255 * COV_ONE) by (nonlinear_arith)
            requires
                0 <= c <= COV_ONE && 0 <= al as int <= 255,
        ;
    }
    let ca = c * al;
    let denom: i64 = 255 * COV_ONE;
    proof {
        lemma_unpack_bounds(d as int);
        lemma_blend_channel_bounds(c as int, al as int, 255, da as int);
        lemma_blend_channel_bounds(c as int, al as int, rs as int, dr as int);
        lemma_blend_channel_bounds(c as int, al as int, gs as int, dg as int);
        lemma_blend_channel_bounds(c as int, al as int, bs as int, db as int);
        lemma_channel_num_bounds(ca as int, 255, da as int, denom as int);
        lemma_channel_num_bounds(ca as int, rs as int, dr as int, denom as int);
        lemma_channel_num_bounds(ca as int, gs as int, dg as int, denom as int);
        lemma_channel_num_bounds(ca as int, bs as int, db as int, denom as int);
    }
    let oa = (ca * 255 + (denom - ca) * da) / denom;
    let or = (ca * rs + (denom - ca) * dr) / denom;
    let og = (ca * gs + (denom - ca) * dg) / denom;
    let ob = (ca * bs + (denom - ca) * db) / denom;
    proof {
        lemma_trunc_div_nonneg(ca as int * 255 + (denom - ca) as int * da as int, denom as int);
        lemma_trunc_div_nonneg(ca as int * rs as int + (denom - ca) as int * dr as int, denom as int);
        lemma_trunc_div_nonneg(ca as int * gs as int + (denom - ca) as int * dg as int, denom as int);
        lemma_trunc_div_nonneg(ca as int * bs as int + (denom - ca) as int * db as int, denom as int);
    }
    (oa as u32) * 0x100_0000 + (or as u32) * 0x1_0000 + (og as u32) * 0x100 + (ob as u32)
}

/// The numerator of a blended channel stays comfortably inside `i64`.
proof fn lemma_channel_num_bounds(ca: int, s: int, d: int, denom: int)
    by (nonlinear_arith)
    requires
        0 <= ca <= denom,
        0 <= s <= 255,
        0 <= d <= 255,
        denom == 255 * COV_ONE,
    ensures
        0 <= ca * s + (denom - ca) * d <= 255 * denom,
        255 * denom < 0x1_0000_0000_0000,
{
}

/// Rust's truncating division agrees with mathematical division on
/// nonnegative operands.
proof fn lemma_trunc_div_nonneg(n: int, d: int)
    by (nonlinear_arith)
    requires
        0 <= n,
        0 < d,
    ensures
        n / d >= 0,
{
}

/// Fill destination pixels `lo..hi` as one uniform span at coverage `c`.
pub fn span_fill(dst: &mut Vec<u32>, lo: usize, hi: usize, c: i64, color: &Color)
    requires
        lo <= hi <= old(dst).len(),
        0 <= c <= COV_ONE,
    ensures
        final(dst).len() == old(dst).len(),
        forall|i: int|
            lo <= i < hi ==> final(dst)@[i] as int == span_pixel(
                c as int,
                *color,
                #[trigger] old(dst)@[i] as int,
            ),
        forall|i: int|
            0 <= i < old(dst).len() && !(lo <= i < hi) ==> final(dst)@[i] == old(dst)@[i],
{
    if 510 * c > 509 * COV_ONE && color.a() == 255 {
        let p = color.packed();
        let mut i = lo;
        while i < hi
            invariant
                lo <= i <= hi <= dst.len(),
                dst.len() == old(dst).len(),
                p as int == color.spec_packed(),
                510 * c > 509 * COV_ONE && color.spec_a() == 255,
                forall|j: int|
                    lo <= j < i ==> dst@[j] as int == span_pixel(
                        c as int,
                        *color,
                        #[trigger] old(dst)@[j] as int,
                    ),
                forall|j: int| 0 <= j < dst.len() && !(lo <= j < i) ==> dst@[j] == old(dst)@[j],
            decreases hi - i,
        {
            dst[i] = p;
            i = i + 1;
        }
    } else if 510 * c > COV_ONE {
        let mut i = lo;
        while i < hi
            invariant
                lo <= i <= hi <= dst.len(),
                dst.len() == old(dst).len(),
                0 <= c <= COV_ONE,
                510 * c > COV_ONE,
                !(510 * c > 509 * COV_ONE && color.spec_a() == 255),
                forall|j: int|
                    lo <= j < i ==> dst@[j] as int == span_pixel(
                        c as int,
                        *color,
                        #[trigger] old(dst)@[j] as int,
                    ),
                forall|j: int| 0 <= j < dst.len() && !(lo <= j < i) ==> dst@[j] == old(dst)@[j],
            decreases hi - i,
        {
            let d0 = dst[i];
            dst[i] = blend_px(c, color, d0);
            i = i + 1;
        }
    }
}

} // verus!
