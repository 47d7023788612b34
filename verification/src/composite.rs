//! Sweeping accumulated coverage into destination pixels.
//!
//! `finish` walks the dirty rows. In each row it takes the bitmask words in
//! order; `leading_zeros` of the remaining word bits jumps straight to the
//! next marked cell (the bitmask is MSB-first for exactly this reason). The
//! run of pixels before a marked cell is a uniform span at the current
//! coverage; the four pixels of a marked cell integrate their deltas into the
//! running sum and blend one by one, and their coverage entries are zeroed.
//! After the sweep the rasterizer is clean again.

use vstd::prelude::*;

use crate::color::Color;
use crate::covmath::abs_sum;
use crate::covmath::lemma_prefix_sum_abs;
use crate::covmath::prefix_sum;
use crate::covmath::spec_imin;
use crate::pipeline::blend_pixel;
use crate::pipeline::blend_px;
use crate::pipeline::out_pixel;
use crate::pipeline::sat_cov;
use crate::pipeline::sat_cov_exec;
use crate::pipeline::span_fill;
use crate::raster::cell_mask;
use crate::raster::cell_of;
use crate::raster::Rasterizer;
use crate::raster::OPS_MAX;
use crate::COV_ONE;

verus! {

/// Whether bit `j` (MSB-first) of a bitmask word is set.
pub open spec fn word_bit(w: u64, j: int) -> bool {
    w & cell_mask(j) != 0
}

/// Entries of a row that are all zero leave its prefix sums unchanged.
proof fn lemma_prefix_zero_range(s: Seq<i64>, a: int, b: int)
    requires
        0 <= a <= b <= s.len(),
        forall|j: int| a <= j < b ==> s[j] == 0,
    ensures
        prefix_sum(s, b) == prefix_sum(s, a),
    decreases b - a,
{
    if a < b {
        lemma_prefix_zero_range(s, a, b - 1);
    }
}

/// A bit of a shifted word is the correspondingly higher bit of the word.
proof fn lemma_bit_after_shift(w: u64, i: u64, sj: u64, sij: u64)
    by (bit_vector)
    requires
        sj < 64,
        sij < 64,
        i < 64,
        sij + i == sj,
    ensures
        (((w << i) & (1u64 << sj)) != 0) <==> ((w & (1u64 << sij)) != 0),
{
}

/// Testing a bit by shifting right or by a mask is the same test.
proof fn lemma_bit_forms(w: u64, q: u64)
    by (bit_vector)
    requires
        q < 64,
    ensures
        ((w >> q) & 1 != 0) <==> ((w & (1u64 << q)) != 0),
{
}

/// Shifting left fills the low bits with zeros.
proof fn lemma_shift_low_zero(w: u64, i: u64, q: u64)
    by (bit_vector)
    requires
        q < i,
        i < 64,
    ensures
        ((w << i) & (1u64 << q)) == 0,
{
}

/// Bits `i..i+n` (MSB-first) of `word` are clear when the first `n` bits of
/// `word << i` are clear, and bit `i+n` is set when bit `n` of the shift is.
proof fn lemma_scan_bits(word: u64, i: int, n: int)
    requires
        0 <= i < 64,
        0 <= n <= 64,
        n == crate::composite::shifted_lz(word, i),
    ensures
        forall|j: int| i <= j < i + n && j < 64 ==> !(#[trigger] word_bit(word, j)),
        n < 64 - i ==> word_bit(word, i + n),
        (word << i as u64) != 0 ==> n <= 63 - i,
{
    let rem = word << i as u64;
    vstd::std_specs::bits::axiom_u64_leading_zeros(rem);
    assert forall|j: int| i <= j < i + n && j < 64 implies !(#[trigger] word_bit(word, j)) by {
        let q: u64 = (63 - (j - i)) as u64;
        let sij: u64 = (63 - j) as u64;
        assert(64 - n <= q < 64 || n == 64);
        assert((rem >> q) & 1u64 == 0u64);
        lemma_bit_forms(rem, q);
        lemma_bit_after_shift(word, i as u64, q, sij);
        assert(cell_mask(j) == 1u64 << sij);
    }
    if rem != 0 {
        assert(n < 64);
        // The first set bit cannot lie in the zero fill.
        if n > 63 - i {
            let q: u64 = (63 - n) as u64;
            assert((rem >> q) & 1u64 != 0u64);
            lemma_bit_forms(rem, q);
            lemma_shift_low_zero(word, i as u64, q);
            assert(false);
        }
    }
    if n < 64 - i {
        assert(rem != 0) by {
            if rem == 0 {
                assert(n == 64);
            }
        }
        let q: u64 = (63 - n) as u64;
        assert((rem >> q) & 1u64 != 0u64);
        lemma_bit_forms(rem, q);
        let sij: u64 = (63 - (i + n)) as u64;
        lemma_bit_after_shift(word, i as u64, q, sij);
        assert(cell_mask(i + n) == 1u64 << sij);
        assert(word_bit(word, i + n));
    }
}

/// The number of leading zeros of `word << i`.
pub open spec fn shifted_lz(word: u64, i: int) -> int {
    vstd::std_specs::bits::u64_leading_zeros(word << i as u64)
}

/// Two distinct multiples of four are at least four apart.
proof fn lemma_mult4_gap(a: int, b: int)
    by (nonlinear_arith)
    requires
        a % 4 == 0,
        b % 4 == 0,
        a < b,
    ensures
        a + 4 <= b,
{
}

/// The cell of a pixel in a 4-pixel cell range.
proof fn lemma_cell_of_range(x: int, c: int)
    by (nonlinear_arith)
    requires
        4 * c <= x < 4 * c + 4,
    ensures
        cell_of(x) == c,
{
}

/// Blend the four pixels of one marked cell, consuming and zeroing its
/// coverage deltas. `row0` is the row's original coverage; entries before
/// `cpx` have already been consumed.
fn edge_cell(
    cov: &mut Vec<i64>,
    cov_off: usize,
    covw: usize,
    dst: &mut Vec<u32>,
    dst_off: usize,
    width: usize,
    cpx: usize,
    accum: i64,
    color: &Color,
    row0: Ghost<Seq<i64>>,
) -> (acc2: i64)
    requires
        cov_off + covw <= old(cov).len(),
        dst_off + width <= old(dst).len(),
        width <= covw,
        cpx + 4 <= covw,
        row0@.len() == covw,
        abs_sum(row0@) <= OPS_MAX * COV_ONE,
        accum as int == prefix_sum(row0@, cpx as int),
        forall|x: int|
            0 <= x < covw ==> #[trigger] old(cov)@[cov_off + x] == (if x < cpx {
                0i64
            } else {
                row0@[x]
            }),
    ensures
        final(cov).len() == old(cov).len(),
        final(dst).len() == old(dst).len(),
        acc2 as int == prefix_sum(row0@, cpx + 4),
        forall|x: int|
            0 <= x < covw ==> #[trigger] final(cov)@[cov_off + x] == (if x < cpx + 4 {
                0i64
            } else {
                row0@[x]
            }),
        forall|i: int|
            0 <= i < old(cov).len() && !(cov_off <= i < cov_off + covw) ==> final(cov)@[i] == old(
                cov,
            )@[i],
        forall|x: int|
            cpx <= x < spec_imin(cpx + 4, width as int) ==> final(dst)@[dst_off + x] as int
                == blend_pixel(
                sat_cov(prefix_sum(row0@, x + 1)),
                *color,
                #[trigger] old(dst)@[dst_off + x] as int,
            ),
        forall|i: int|
            0 <= i < old(dst).len() && !(dst_off + cpx <= i < dst_off + spec_imin(
                cpx + 4,
                width as int,
            )) ==> final(dst)@[i] == old(dst)@[i],
{
    let mut acc = accum;
    let mut k: usize = 0;
    while k < 4
        invariant
            0 <= k <= 4,
            cov_off + covw <= cov.len(),
            dst_off + width <= dst.len(),
            width <= covw,
            cpx + 4 <= covw,
            row0@.len() == covw,
            abs_sum(row0@) <= OPS_MAX * COV_ONE,
            cov.len() == old(cov).len(),
            dst.len() == old(dst).len(),
            acc as int == prefix_sum(row0@, cpx + k),
            forall|x: int|
                0 <= x < covw ==> #[trigger] cov@[cov_off + x] == (if x < cpx + k {
                    0i64
                } else {
                    row0@[x]
                }),
            forall|i: int|
                0 <= i < old(cov).len() && !(cov_off <= i < cov_off + covw) ==> cov@[i] == old(
                    cov,
                )@[i],
            forall|x: int|
                cpx <= x < spec_imin(cpx + k, width as int) ==> dst@[dst_off + x] as int
                    == blend_pixel(
                    sat_cov(prefix_sum(row0@, x + 1)),
                    *color,
                    #[trigger] old(dst)@[dst_off + x] as int,
                ),
            forall|i: int|
                0 <= i < old(dst).len() && !(dst_off + cpx <= i < dst_off + spec_imin(
                    cpx + k,
                    width as int,
                )) ==> dst@[i] == old(dst)@[i],
        decreases 4 - k,
    {
        let x = cpx + k;
        let delta = cov[cov_off + x];
        cov[cov_off + x] = 0;
        proof {
            lemma_prefix_sum_abs(row0@, (cpx + k) as int);
            crate::covmath::lemma_abs_sum_entry(row0@, x as int);
            assert(prefix_sum(row0@, x + 1) == prefix_sum(row0@, x as int) + row0@[x as int]);
        }
        acc = acc + delta;
        proof {
            lemma_prefix_sum_abs(row0@, x + 1);
        }
        if x < width {
            let cvg = sat_cov_exec(acc);
            let d0 = dst[dst_off + x];
            dst[dst_off + x] = blend_px(cvg, color, d0);
        }
        k = k + 1;
    }
    acc
}

/// Sweep the 64 cells of one bitmask word: uniform spans between marked
/// cells, `leading_zeros` jumping from one marked cell to the next.
fn composite_word(
    cov: &mut Vec<i64>,
    cov_off: usize,
    covw: usize,
    dst: &mut Vec<u32>,
    dst_off: usize,
    width: usize,
    w_idx: usize,
    word: u64,
    accum: i64,
    color: &Color,
    row0: Ghost<Seq<i64>>,
) -> (acc2: i64)
    requires
        cov_off + covw <= old(cov).len(),
        dst_off + width <= old(dst).len(),
        width <= covw,
        covw % 4 == 0,
        covw <= 0x2_0000,
        w_idx <= 0x1_0000,
        row0@.len() == covw,
        abs_sum(row0@) <= OPS_MAX * COV_ONE,
        accum as int == prefix_sum(row0@, spec_imin(256 * w_idx as int, covw as int)),
        forall|x: int|
            0 <= x < covw ==> #[trigger] old(cov)@[cov_off + x] == (if x < spec_imin(
                256 * w_idx as int,
                covw as int,
            ) {
                0i64
            } else {
                row0@[x]
            }),
        forall|j: int| 0 <= j < 64 && #[trigger] word_bit(word, j) ==> 4 * (64 * w_idx + j) < width,
        forall|x: int|
            256 * w_idx <= x < spec_imin(256 * (w_idx + 1) as int, covw as int) && #[trigger] row0@[x]
                != 0 ==> word_bit(word, cell_of(x) - 64 * w_idx),
    ensures
        final(cov).len() == old(cov).len(),
        final(dst).len() == old(dst).len(),
        acc2 as int == prefix_sum(row0@, spec_imin(256 * (w_idx + 1) as int, covw as int)),
        forall|x: int|
            0 <= x < covw ==> #[trigger] final(cov)@[cov_off + x] == (if x < spec_imin(
                256 * (w_idx + 1) as int,
                covw as int,
            ) {
                0i64
            } else {
                row0@[x]
            }),
        forall|i: int|
            0 <= i < old(cov).len() && !(cov_off <= i < cov_off + covw) ==> final(cov)@[i] == old(
                cov,
            )@[i],
        forall|x: int|
            256 * w_idx <= x < spec_imin(256 * (w_idx + 1) as int, width as int)
                ==> final(dst)@[dst_off + x] as int == out_pixel(
                word_bit(word, cell_of(x) - 64 * w_idx),
                sat_cov(prefix_sum(row0@, x + 1)),
                *color,
                #[trigger] old(dst)@[dst_off + x] as int,
            ),
        forall|i: int|
            0 <= i < old(dst).len() && !(dst_off + 256 * w_idx <= i < dst_off + spec_imin(
                256 * (w_idx + 1) as int,
                width as int,
            )) ==> final(dst)@[i] == old(dst)@[i],
{
    let base = 256 * w_idx;
    let mut acc = accum;
    let mut i: usize = 0;
    while i < 64
        invariant
            0 <= i <= 64,
            base == 256 * w_idx,
            cov_off + covw <= cov.len(),
            dst_off + width <= dst.len(),
            width <= covw,
            covw % 4 == 0,
            covw <= 0x2_0000,
            w_idx <= 0x1_0000,
            row0@.len() == covw,
            abs_sum(row0@) <= OPS_MAX * COV_ONE,
            cov.len() == old(cov).len(),
            dst.len() == old(dst).len(),
            acc as int == prefix_sum(row0@, spec_imin((base + 4 * i) as int, covw as int)),
            forall|x: int|
                0 <= x < covw ==> #[trigger] cov@[cov_off + x] == (if x < spec_imin(
                    (base + 4 * i) as int,
                    covw as int,
                ) {
                    0i64
                } else {
                    row0@[x]
                }),
            forall|ii: int|
                0 <= ii < old(cov).len() && !(cov_off <= ii < cov_off + covw) ==> cov@[ii] == old(
                    cov,
                )@[ii],
            forall|x: int|
                base <= x < spec_imin((base + 4 * i) as int, width as int) ==> dst@[dst_off
                    + x] as int == out_pixel(
                    word_bit(word, cell_of(x) - 64 * w_idx),
                    sat_cov(prefix_sum(row0@, x + 1)),
                    *color,
                    #[trigger] old(dst)@[dst_off + x] as int,
                ),
            forall|ii: int|
                0 <= ii < old(dst).len() && !(dst_off + base <= ii < dst_off + spec_imin(
                    (base + 4 * i) as int,
                    width as int,
                )) ==> dst@[ii] == old(dst)@[ii],
            forall|j: int|
                0 <= j < 64 && #[trigger] word_bit(word, j) ==> 4 * (64 * w_idx + j) < width,
            forall|x: int|
                256 * w_idx <= x < spec_imin(256 * (w_idx + 1) as int, covw as int)
                    && #[trigger] row0@[x] != 0 ==> word_bit(word, cell_of(x) - 64 * w_idx),
        decreases 64 - i,
    {
        let ghost pre_loop_dst = dst@;
        let rem: u64 = word << (i as u64);
        proof {
            vstd::std_specs::bits::axiom_u64_leading_zeros(rem);
        }
        if rem == 0 {
            // Every remaining cell is unmarked: one uniform span to the end
            // of the word.
            proof {
                lemma_scan_bits(word, i as int, 64);
            }
            let lo = if base + 4 * i <= width {
                base + 4 * i
            } else {
                width
            };
            let hi = if base + 256 <= width {
                base + 256
            } else {
                width
            };
            proof {
                span_cov_zero(row0@, word, w_idx as int, i as int, 64, covw as int);
                lemma_prefix_zero_range(
                    row0@,
                    spec_imin((base + 4 * i) as int, covw as int),
                    spec_imin((base + 256) as int, covw as int),
                );
            }
            proof {
                lemma_prefix_sum_abs(row0@, spec_imin((base + 4 * i) as int, covw as int));
            }
            let cvg = sat_cov_exec(acc);
            span_fill(dst, dst_off + lo, dst_off + hi, cvg, color);
            proof {
                assert forall|x: int|
                    base + 4 * i <= x < spec_imin(
                        (base + 256) as int,
                        width as int,
                    ) implies dst@[dst_off + x] as int == out_pixel(
                    word_bit(word, cell_of(x) - 64 * w_idx),
                    sat_cov(prefix_sum(row0@, x + 1)),
                    *color,
                    pre_loop_dst[dst_off + x] as int,
                ) by {
                    lemma_cell_in_span(x, w_idx as int, i as int, 64);
                    assert(!word_bit(word, cell_of(x) - 64 * w_idx));
                    span_cov_zero(row0@, word, w_idx as int, i as int, 64, covw as int);
                    lemma_prefix_zero_range(
                        row0@,
                        spec_imin((base + 4 * i) as int, covw as int),
                        x + 1,
                    );
                }
                lemma_prefix_zero_range(
                    row0@,
                    spec_imin((base + 4 * i) as int, covw as int),
                    spec_imin((base + 256) as int, covw as int),
                );
            }
            i = 64;
        } else {
            let n = rem.leading_zeros() as usize;
            proof {
                lemma_scan_bits(word, i as int, n as int);
                assert(n <= 63 - i);
                assert(word_bit(word, (i + n) as int));
                assert(4 * (64 * w_idx + i + n) < width);
            }
            let lo = if base + 4 * i <= width {
                base + 4 * i
            } else {
                width
            };
            let mid = if base + 4 * (i + n) <= width {
                base + 4 * (i + n)
            } else {
                width
            };
            proof {
                span_cov_zero(row0@, word, w_idx as int, i as int, (i + n) as int, covw as int);
                lemma_prefix_zero_range(
                    row0@,
                    spec_imin((base + 4 * i) as int, covw as int),
                    spec_imin((base + 4 * (i + n)) as int, covw as int),
                );
            }
            proof {
                lemma_prefix_sum_abs(row0@, spec_imin((base + 4 * i) as int, covw as int));
            }
            let cvg = sat_cov_exec(acc);
            let ghost dst_before_span = dst@;
            span_fill(dst, dst_off + lo, dst_off + mid, cvg, color);
            proof {
                assert forall|x: int|
                    base + 4 * i <= x < spec_imin(
                        (base + 4 * (i + n)) as int,
                        width as int,
                    ) implies dst@[dst_off + x] as int == out_pixel(
                    word_bit(word, cell_of(x) - 64 * w_idx),
                    sat_cov(prefix_sum(row0@, x + 1)),
                    *color,
                    dst_before_span[dst_off + x] as int,
                ) by {
                    lemma_cell_in_span(x, w_idx as int, i as int, (i + n) as int);
                    assert(!word_bit(word, cell_of(x) - 64 * w_idx));
                    span_cov_zero(row0@, word, w_idx as int, i as int, (i + n) as int, covw as int);
                    lemma_prefix_zero_range(
                        row0@,
                        spec_imin((base + 4 * i) as int, covw as int),
                        x + 1,
                    );
                }
            }
            // The marked cell itself.
            let cpx = base + 4 * (i + n);
            proof {
                assert(cpx < width);
                assert(cpx % 4 == 0) by (nonlinear_arith)
                    requires
                        cpx == 256 * w_idx + 4 * (i + n),
                ;
                lemma_mult4_gap(cpx as int, covw as int);
                assert(acc as int == prefix_sum(row0@, cpx as int)) by {
                    lemma_prefix_zero_range(
                        row0@,
                        spec_imin((base + 4 * i) as int, covw as int),
                        cpx as int,
                    );
                    span_cov_zero(row0@, word, w_idx as int, i as int, (i + n) as int, covw as int);
                }
            }
            let ghost dst_before_cell = dst@;
            let ghost cov_before_cell = cov@;
            acc = edge_cell(cov, cov_off, covw, dst, dst_off, width, cpx, acc, color, row0);
            proof {
                assert forall|x: int|
                    cpx <= x < spec_imin((cpx + 4) as int, width as int) implies dst@[dst_off
                    + x] as int == out_pixel(
                    word_bit(word, cell_of(x) - 64 * w_idx),
                    sat_cov(prefix_sum(row0@, x + 1)),
                    *color,
                    dst_before_cell[dst_off + x] as int,
                ) by {
                    lemma_cell_of_range(x, (64 * w_idx + i + n) as int);
                    assert(word_bit(word, cell_of(x) - 64 * w_idx));
                }
            }
            i = i + n + 1;
        }
    }
    acc
}

/// Unmarked cells hold only zero coverage: the requires of the word sweep
/// say a nonzero entry implies a set bit.
proof fn span_cov_zero(row0: Seq<i64>, word: u64, w_idx: int, i: int, iend: int, covw: int)
    requires
        row0.len() == covw,
        0 <= i <= iend <= 64,
        0 <= w_idx,
        forall|j: int| i <= j < iend && j < 64 ==> !(#[trigger] word_bit(word, j)),
        forall|x: int|
            256 * w_idx <= x < spec_imin(256 * (w_idx + 1), covw) && #[trigger] row0[x] != 0
                ==> word_bit(word, cell_of(x) - 64 * w_idx),
    ensures
        forall|x: int|
            256 * w_idx + 4 * i <= x < spec_imin(256 * w_idx + 4 * iend, covw) ==> row0[
                #[trigger] (x * 1)
            ] == 0,
{
    assert forall|x: int|
        256 * w_idx + 4 * i <= x < spec_imin(256 * w_idx + 4 * iend, covw) implies row0[
        #[trigger] (x * 1)
    ] == 0 by {
        lemma_cell_bounds(x, w_idx, i, iend);
        if row0[x] != 0 {
            assert(word_bit(word, cell_of(x) - 64 * w_idx));
        }
    }
}

/// A pixel between cells `i` and `iend` of word `w_idx` lies in one of those
/// cells.
proof fn lemma_cell_bounds(x: int, w_idx: int, i: int, iend: int)
    by (nonlinear_arith)
    requires
        0 <= w_idx,
        0 <= i <= iend <= 64,
        256 * w_idx + 4 * i <= x < 256 * w_idx + 4 * iend,
    ensures
        i <= cell_of(x) - 64 * w_idx < iend,
        cell_of(x) - 64 * w_idx < 64,
        256 * w_idx <= x,
{
}

/// Same fact, stated for the span form used while sweeping.
proof fn lemma_cell_in_span(x: int, w_idx: int, i: int, iend: int)
    by (nonlinear_arith)
    requires
        0 <= w_idx,
        0 <= i <= iend <= 64,
        256 * w_idx + 4 * i <= x < 256 * w_idx + 4 * iend,
    ensures
        i <= cell_of(x) - 64 * w_idx < iend,
{
}

/// Whether the bit of cell `c` in a row of bitmask words is set.
pub open spec fn row_bit(bits: Seq<u64>, bits_off: int, c: int) -> bool {
    word_bit(bits[bits_off + c / 64], c % 64)
}

/// A pixel's cell lands in word `x / 256` at bit `(x / 4) % 64`.
proof fn lemma_pixel_word(x: int)
    by (nonlinear_arith)
    requires
        0 <= x,
    ensures
        cell_of(x) / 64 == x / 256,
        cell_of(x) % 64 == cell_of(x) - 64 * (x / 256),
        0 <= cell_of(x) % 64 < 64,
        0 <= x / 256,
{
}

/// Sweep one scanline: every bitmask word in turn, composite its cells into
/// the destination row, and leave the row's coverage and bitmask words zero.
fn composite_row(
    cov: &mut Vec<i64>,
    cov_off: usize,
    covw: usize,
    bits: &mut Vec<u64>,
    bits_off: usize,
    bw: usize,
    dst: &mut Vec<u32>,
    dst_off: usize,
    width: usize,
    color: &Color,
)
    requires
        cov_off + covw <= old(cov).len(),
        bits_off + bw <= old(bits).len(),
        dst_off + width <= old(dst).len(),
        width <= covw,
        covw % 4 == 0,
        covw <= 0x2_0000,
        bw <= 0x1_0000,
        covw <= 4 * 64 * bw,
        abs_sum(old(cov)@.subrange(cov_off as int, (cov_off + covw) as int)) <= OPS_MAX * COV_ONE,
        forall|c: int|
            0 <= c < 64 * bw && #[trigger] row_bit(old(bits)@, bits_off as int, c) ==> 4 * c
                < width,
        forall|x: int|
            0 <= x < covw && #[trigger] old(cov)@[cov_off + x] != 0 ==> row_bit(
                old(bits)@,
                bits_off as int,
                cell_of(x),
            ),
    ensures
        final(cov).len() == old(cov).len(),
        final(bits).len() == old(bits).len(),
        final(dst).len() == old(dst).len(),
        forall|x: int| 0 <= x < covw ==> #[trigger] final(cov)@[cov_off + x] == 0i64,
        forall|i: int|
            0 <= i < old(cov).len() && !(cov_off <= i < cov_off + covw) ==> final(cov)@[i] == old(
                cov,
            )@[i],
        forall|j: int| 0 <= j < bw ==> #[trigger] final(bits)@[bits_off + j] == 0u64,
        forall|i: int|
            0 <= i < old(bits).len() && !(bits_off <= i < bits_off + bw) ==> final(bits)@[i]
                == old(bits)@[i],
        forall|x: int|
            0 <= x < width ==> #[trigger] final(dst)@[dst_off + x] as int == out_pixel(
                row_bit(old(bits)@, bits_off as int, cell_of(x)),
                sat_cov(
                    prefix_sum(
                        old(cov)@.subrange(cov_off as int, (cov_off + covw) as int),
                        x + 1,
                    ),
                ),
                *color,
                old(dst)@[dst_off + x] as int,
            ),
        forall|i: int|
            0 <= i < old(dst).len() && !(dst_off <= i < dst_off + width) ==> final(dst)@[i] == old(
                dst,
            )@[i],
{
    let ghost row0 = old(cov)@.subrange(cov_off as int, (cov_off + covw) as int);
    let mut acc: i64 = 0;
    let mut w: usize = 0;
    proof {
        assert forall|x: int| 0 <= x < covw implies #[trigger] cov@[cov_off + x] == (if x
            < spec_imin(0, covw as int) {
            0i64
        } else {
            row0[x]
        }) by {
            assert(row0[x] == cov@[cov_off + x]);
        }
        assert forall|x: int| 0 <= x < covw && #[trigger] row0[x] != 0 implies row_bit(
            old(bits)@,
            bits_off as int,
            cell_of(x),
        ) by {
            assert(row0[x] == old(cov)@[cov_off + x]);
        }
    }
    while w < bw
        invariant
            0 <= w <= bw,
            cov_off + covw <= cov.len(),
            bits_off + bw <= bits.len(),
            dst_off + width <= dst.len(),
            width <= covw,
            covw % 4 == 0,
            covw <= 0x2_0000,
            bw <= 0x1_0000,
            covw <= 4 * 64 * bw,
            row0 == old(cov)@.subrange(cov_off as int, (cov_off + covw) as int),
            row0.len() == covw,
            abs_sum(row0) <= OPS_MAX * COV_ONE,
            cov.len() == old(cov).len(),
            bits.len() == old(bits).len(),
            dst.len() == old(dst).len(),
            acc as int == prefix_sum(row0, spec_imin(256 * w as int, covw as int)),
            forall|x: int|
                0 <= x < covw ==> #[trigger] cov@[cov_off + x] == (if x < spec_imin(
                    256 * w as int,
                    covw as int,
                ) {
                    0i64
                } else {
                    row0[x]
                }),
            forall|i: int|
                0 <= i < old(cov).len() && !(cov_off <= i < cov_off + covw) ==> cov@[i] == old(
                    cov,
                )@[i],
            forall|j: int| 0 <= j < w ==> #[trigger] bits@[bits_off + j] == 0u64,
            forall|i: int|
                0 <= i < old(bits).len() && !(bits_off <= i < bits_off + w) ==> bits@[i] == old(
                    bits,
                )@[i],
            forall|x: int|
                0 <= x < spec_imin(256 * w as int, width as int) ==> #[trigger] dst@[dst_off
                    + x] as int == out_pixel(
                    row_bit(old(bits)@, bits_off as int, cell_of(x)),
                    sat_cov(prefix_sum(row0, x + 1)),
                    *color,
                    old(dst)@[dst_off + x] as int,
                ),
            forall|i: int|
                0 <= i < old(dst).len() && !(dst_off <= i < dst_off + spec_imin(
                    256 * w as int,
                    width as int,
                )) ==> dst@[i] == old(dst)@[i],
            forall|c: int|
                0 <= c < 64 * bw && #[trigger] row_bit(old(bits)@, bits_off as int, c) ==> 4 * c
                    < width,
            forall|x: int|
                0 <= x < covw && #[trigger] row0[x] != 0 ==> row_bit(
                    old(bits)@,
                    bits_off as int,
                    cell_of(x),
                ),
        decreases bw - w,
    {
        let word = bits[bits_off + w];
        bits[bits_off + w] = 0;
        proof {
            // This word's bits are the row bits of its 64 cells.
            assert forall|j: int| 0 <= j < 64 && #[trigger] word_bit(word, j) implies 4 * (64
                * w as int + j) < width by {
                lemma_word_cell(w as int, j, bw as int);
                assert(row_bit(old(bits)@, bits_off as int, 64 * w as int + j));
            }
            assert forall|x: int|
                256 * w as int <= x < spec_imin(256 * (w as int + 1), covw as int)
                    && #[trigger] row0[x] != 0 implies word_bit(
                word,
                cell_of(x) - 64 * w as int,
            ) by {
                lemma_pixel_word(x);
                assert(x / 256 == w as int) by (nonlinear_arith)
                    requires
                        256 * w as int <= x < 256 * (w as int + 1),
                ;
                assert(row_bit(old(bits)@, bits_off as int, cell_of(x)));
                lemma_word_cell_back(w as int, cell_of(x));
            }
        }
        let ghost dst_before = dst@;
        acc =
        composite_word(
            cov,
            cov_off,
            covw,
            dst,
            dst_off,
            width,
            w,
            word,
            acc,
            color,
            Ghost(row0),
        );
        proof {
            assert forall|x: int|
                0 <= x < spec_imin(256 * (w as int + 1), width as int) implies #[trigger] dst@[dst_off
                + x] as int == out_pixel(
                row_bit(old(bits)@, bits_off as int, cell_of(x)),
                sat_cov(prefix_sum(row0, x + 1)),
                *color,
                old(dst)@[dst_off + x] as int,
            ) by {
                if x < 256 * w as int {
                    assert(dst@[dst_off + x] == dst_before[dst_off + x]);
                } else {
                    lemma_pixel_word(x);
                    assert(x / 256 == w as int) by (nonlinear_arith)
                        requires
                            256 * w as int <= x < 256 * (w as int + 1),
                    ;
                    lemma_word_cell_back(w as int, cell_of(x));
                    assert(word_bit(word, cell_of(x) - 64 * w as int) == row_bit(
                        old(bits)@,
                        bits_off as int,
                        cell_of(x),
                    ));
                    assert(dst_before[dst_off + x] == old(dst)@[dst_off + x]);
                }
            }
        }
        w = w + 1;
    }
    proof {
        assert forall|x: int| 0 <= x < covw implies #[trigger] cov@[cov_off + x] == 0i64 by {
            assert(covw <= 256 * bw) by (nonlinear_arith)
                requires
                    covw <= 4 * 64 * bw,
            ;
        }
        assert(spec_imin(256 * bw as int, width as int) == width as int) by (nonlinear_arith)
            requires
                width <= covw && covw <= 4 * 64 * bw,
        ;
    }
}

/// Cell `64*w + j` of a row lies in word `w` at bit `j`.
proof fn lemma_word_cell(w: int, j: int, bw: int)
    by (nonlinear_arith)
    requires
        0 <= w < bw,
        0 <= j < 64,
    ensures
        0 <= 64 * w + j < 64 * bw,
        (64 * w + j) / 64 == w,
        (64 * w + j) % 64 == j,
{
}

/// A cell of word `w` sits at bit `c - 64*w` of that word.
proof fn lemma_word_cell_back(w: int, c: int)
    by (nonlinear_arith)
    requires
        64 * w <= c < 64 * (w + 1),
    ensures
        c / 64 == w,
        c % 64 == c - 64 * w,
{
}


/// Whether `finish` with the given framebuffer geometry may write index
/// `i`: the index falls on the first `w` pixels of one of the `h` rows.
pub open spec fn finish_touches(offset: int, stride: int, w: int, h: int, i: int) -> bool {
    w > 0 && offset <= i && (i - offset) / (stride as int) < h && (i - offset) % (stride as int) < w
}

/// A nonzero word has its first set bit where its leading zeros end.
pub proof fn lemma_word_nonzero_has_bit(wd: u64)
    requires
        wd != 0,
    ensures
        0 <= vstd::std_specs::bits::u64_leading_zeros(wd) < 64,
        word_bit(wd, vstd::std_specs::bits::u64_leading_zeros(wd)),
{
    vstd::std_specs::bits::axiom_u64_leading_zeros(wd);
    let n = vstd::std_specs::bits::u64_leading_zeros(wd);
    let q: u64 = (63 - n) as u64;
    assert((wd >> q) & 1u64 != 0u64);
    lemma_bit_forms(wd, q);
    assert(cell_mask(n) == 1u64 << q);
}

/// Rows the sweep never visits hold no coverage and no bits: everything
/// marked lies inside the dirty row bounds.
proof fn lemma_finish_untouched_row(pre: Rasterizer, yy: int, y_lo: int, y_end: int)
    requires
        pre.wf(),
        0 <= yy < pre.height,
        !(y_lo <= yy < y_end),
        y_lo == pre.min_y,
        y_end > pre.max_y || y_end >= pre.height,
        y_lo <= y_end,
    ensures
        forall|x: int| 0 <= x < pre.cov_w ==> #[trigger] pre.coverage@[yy * pre.cov_w + x] == 0,
        forall|j: int|
            0 <= j < pre.bitmasks_width ==> #[trigger] pre.bitmasks@[yy * pre.bitmasks_width + j]
                == 0,
        forall|x: int| 0 <= x < pre.width ==> sat_cov(pre.cov_prefix(yy, x)) == 0,
        forall|c: int| !pre.bit_set(yy, #[trigger] (c * 1)) || !(0 <= c < 64 * pre.bitmasks_width),
{
    lemma_finish_row_facts(pre, yy);
    assert forall|x: int| 0 <= x < pre.cov_w implies #[trigger] pre.coverage@[yy * pre.cov_w + x]
        == 0 by {
        if pre.coverage@[yy * pre.cov_w + x] != 0 {
            assert(pre.cov_at(yy, x) != 0);
            assert(pre.touched@.contains((yy, cell_of(x))));
        }
    }
    assert forall|c: int| 0 <= c < 64 * pre.bitmasks_width implies !pre.bit_set(
        yy,
        #[trigger] (c * 1),
    ) by {
        if pre.bit_set(yy, c) {
            assert(pre.touched@.contains((yy, c)));
        }
    }
    assert forall|j: int| 0 <= j < pre.bitmasks_width implies #[trigger] pre.bitmasks@[yy
        * pre.bitmasks_width + j] == 0 by {
        let wd = pre.bitmasks@[yy * pre.bitmasks_width + j];
        if wd != 0 {
            lemma_word_nonzero_has_bit(wd);
            let n = vstd::std_specs::bits::u64_leading_zeros(wd);
            let c = 64 * j + n;
            lemma_word_cell_back(j, c);
            assert(0 <= c < 64 * pre.bitmasks_width) by (nonlinear_arith)
                requires
                    0 <= j < pre.bitmasks_width && 0 <= n < 64 && c == 64 * j + n,
            ;
            assert(pre.bit_set(yy, c) == word_bit(wd, c % 64));
            assert(c % 64 == n);
            assert(!pre.bit_set(yy, c * 1));
            assert(false);
        }
    }
    let row = pre.coverage@.subrange(yy * pre.cov_w, (yy + 1) * pre.cov_w);
    assert forall|x: int| 0 <= x < pre.width implies sat_cov(pre.cov_prefix(yy, x)) == 0 by {
        assert forall|k: int| 0 <= k < row.len() implies row[k] == 0 by {
            assert(row[k] == pre.coverage@[yy * pre.cov_w + k]);
        }
        lemma_prefix_zero_range(row, 0, x + 1);
    }
}

impl Rasterizer {
    /// The running coverage sum of row `yy` up to and including column `x`.
    pub open spec fn cov_prefix(self, yy: int, x: int) -> int {
        prefix_sum(self.coverage@.subrange(yy * self.cov_w, (yy + 1) * self.cov_w), x + 1)
    }

    /// Composite the accumulated coverage over a framebuffer and reset.
    ///
    /// Row `yy` of the raster lands at `dst[offset + yy*stride ..]`. Every
    /// raster pixel becomes exactly [`out_pixel`] of its cell's bitmask bit,
    /// its saturated running coverage, the color and the old pixel; every
    /// other index of `dst` is untouched. Afterwards the rasterizer is
    /// clean: coverage and bitmask all zero, dirty bounds empty.
    pub fn finish(&mut self, color: Color, dst: &mut Vec<u32>, offset: usize, stride: usize)
        requires
            old(self).wf(),
            stride >= old(self).width,
            old(self).height > 0 && old(self).width > 0 ==> offset + (old(self).height - 1)
                * stride + old(self).width <= old(dst).len(),
        ensures
            final(self).clean(),
            final(self).same_dims(*old(self)),
            final(self).width == old(self).width,
            final(self).height == old(self).height,
            final(dst).len() == old(dst).len(),
            forall|yy: int, x: int|
                0 <= yy < old(self).height && 0 <= x < old(self).width ==> final(dst)@[offset + yy
                    * stride + x] as int == out_pixel(
                    old(self).bit_set(yy, cell_of(x)),
                    sat_cov(old(self).cov_prefix(yy, x)),
                    color,
                    #[trigger] old(dst)@[offset + yy * stride + x] as int,
                ),
            forall|i: int|
                0 <= i < old(dst).len() && !finish_touches(
                    offset as int,
                    stride as int,
                    old(self).width as int,
                    old(self).height as int,
                    i,
                ) ==> final(dst)@[i] == old(dst)@[i],
    {
        let w = self.width;
        let h = self.height;
        let covw = self.cov_w;
        let bw = self.bitmasks_width;
        let ghost pre = *old(self);
        let ghost dst0 = old(dst)@;
        let mut cov: Vec<i64> = Vec::new();
        core::mem::swap(&mut cov, &mut self.coverage);
        let mut bits: Vec<u64> = Vec::new();
        core::mem::swap(&mut bits, &mut self.bitmasks);
        let ghost cov0 = cov@;
        let ghost bits0 = bits@;
        let y_lo = self.min_y;
        let y_hi = self.max_y;
        let mut y = y_lo;
        if w > 0 && y_lo < h {
            while y <= y_hi && y < h
                invariant
                    w > 0,
                    y_lo <= y,
                    y_lo == pre.min_y,
                    y_hi == pre.max_y,
                    pre.wf(),
                    w == pre.width,
                    h == pre.height,
                    covw == pre.cov_w,
                    bw == pre.bitmasks_width,
                    stride >= w,
                    h > 0,
                    offset + (h - 1) * stride + w <= dst0.len(),
                    cov0 == pre.coverage@,
                    bits0 == pre.bitmasks@,
                    cov.len() == cov0.len(),
                    bits.len() == bits0.len(),
                    dst.len() == dst0.len(),
                    dst0 == old(dst)@,
                    forall|yy: int, x: int|
                        0 <= yy < h && 0 <= x < covw ==> #[trigger] cov@[yy * covw + x] == (
                        if y_lo <= yy < y {
                            0i64
                        } else {
                            cov0[yy * covw + x]
                        }),
                    forall|yy: int, j: int|
                        0 <= yy < h && 0 <= j < bw ==> #[trigger] bits@[yy * bw + j] == (if y_lo
                            <= yy < y {
                            0u64
                        } else {
                            bits0[yy * bw + j]
                        }),
                    forall|i: int|
                        covw * h <= i < cov0.len() ==> #[trigger] cov@[i] == cov0[i],
                    forall|i: int|
                        bw * h <= i < bits0.len() ==> #[trigger] bits@[i] == bits0[i],
                    forall|yy: int, x: int|
                        y_lo <= yy < y && yy < h && 0 <= x < w ==> #[trigger] dst@[offset + yy
                            * stride + x] as int == out_pixel(
                            pre.bit_set(yy, cell_of(x)),
                            sat_cov(pre.cov_prefix(yy, x)),
                            color,
                            dst0[offset + yy * stride + x] as int,
                        ),
                    forall|i: int|
                        0 <= i < dst0.len() && !(offset <= i && y_lo <= (i - offset) / (stride as int)
                            && (i - offset) / (stride as int) < y && (i - offset) / (stride as int) < h && (i
                            - offset) % (stride as int) < w) ==> #[trigger] dst@[i] == dst0[i],
                decreases h - y,
            {
                proof {
                    lemma_finish_row_facts(pre, y as int);
                    assert(offset + y as int * stride + w <= dst0.len()) by (nonlinear_arith)
                        requires
                            0 <= y as int <= h - 1 && offset + (h - 1) * stride + w <= dst0.len()
                                && stride >= 0,
                    ;
                    // The row the sweep sees is the original row.
                    lemma_row_slice_eq(
                        cov@,
                        cov0,
                        covw as int,
                        h as int,
                        y as int,
                        y_lo as int,
                        y as int,
                    );
                    assert forall|c: int|
                        0 <= c < 64 * bw && #[trigger] row_bit(
                            bits@,
                            y as int * bw,
                            c,
                        ) implies 4 * c < w by {
                        assert(0 <= c / 64 < bw) by (nonlinear_arith)
                            requires
                                0 <= c < 64 * bw,
                        ;
                        assert(bits@[y as int * bw + c / 64] == bits0[y as int * bw + c / 64]);
                        lemma_row_bit_glue(pre, y as int, c);
                    }
                    assert forall|x: int|
                        0 <= x < covw && #[trigger] cov@[y as int * covw + x] != 0 implies row_bit(
                        bits@,
                        y as int * bw,
                        cell_of(x),
                    ) by {
                        assert(cov@[y as int * covw + x] == cov0[y as int * covw + x]);
                        assert(0 <= cell_of(x) / 64 < bw) by (nonlinear_arith)
                            requires
                                0 <= x < covw && covw <= 4 * 64 * bw && cell_of(x) == x / 4,
                        ;
                        assert(bits@[y as int * bw + cell_of(x) / 64] == bits0[y as int * bw
                            + cell_of(x) / 64]);
                        assert(pre.cov_at(y as int, x) != 0);
                        assert(pre.touched@.contains((y as int, cell_of(x))));
                        assert(0 <= cell_of(x) < 64 * bw) by (nonlinear_arith)
                            requires
                                0 <= x < covw && covw <= 4 * 64 * bw && cell_of(x) == x / 4,
                        ;
                        assert(pre.bit_set(y as int, cell_of(x)));
                        lemma_row_bit_glue(pre, y as int, cell_of(x));
                    }
                }
                let ghost covp = cov@;
                let ghost bitsp = bits@;
                let ghost dstp = dst@;
                composite_row(
                    &mut cov,
                    y * covw,
                    covw,
                    &mut bits,
                    y * bw,
                    bw,
                    dst,
                    offset + y * stride,
                    w,
                    &color,
                );
                proof {
                    // Extend the zeroing pattern by row y.
                    assert forall|yy: int, x: int|
                        0 <= yy < h && 0 <= x < covw implies #[trigger] cov@[yy * covw + x] == (
                    if y_lo <= yy < y as int + 1 {
                        0i64
                    } else {
                        cov0[yy * covw + x]
                    }) by {
                        if yy == y as int {
                            assert(cov@[y as int * covw + x] == 0);
                        } else {
                            assert(yy * covw + x < y as int * covw || yy * covw + x >= y as int
                                * covw + covw) by (nonlinear_arith)
                                requires
                                    yy != y as int && 0 <= x < covw && 0 <= yy && 0 <= covw,
                            ;
                            assert(0 <= yy * covw + x < covw * h) by (nonlinear_arith)
                                requires
                                    0 <= yy < h && 0 <= x < covw,
                            ;
                            assert(cov@[yy * covw + x] == covp[yy * covw + x]);
                        }
                    }
                    assert forall|yy: int, j: int|
                        0 <= yy < h && 0 <= j < bw implies #[trigger] bits@[yy * bw + j] == (
                    if y_lo <= yy < y as int + 1 {
                        0u64
                    } else {
                        bits0[yy * bw + j]
                    }) by {
                        if yy == y as int {
                            assert(bits@[y as int * bw + j] == 0);
                        } else {
                            assert(yy * bw + j < y as int * bw || yy * bw + j >= y as int * bw
                                + bw) by (nonlinear_arith)
                                requires
                                    yy != y as int && 0 <= j < bw && 0 <= yy && 0 <= bw,
                            ;
                            assert(0 <= yy * bw + j < bw * h) by (nonlinear_arith)
                                requires
                                    0 <= yy < h && 0 <= j < bw,
                            ;
                            assert(bits@[yy * bw + j] == bitsp[yy * bw + j]);
                        }
                    }
                    // Row y's pixels now match the contract formula.
                    assert forall|x: int| 0 <= x < w implies #[trigger] dst@[offset + y as int
                        * stride + x] as int == out_pixel(
                        pre.bit_set(y as int, cell_of(x)),
                        sat_cov(pre.cov_prefix(y as int, x)),
                        color,
                        dst0[offset + y as int * stride + x] as int,
                    ) by {
                        lemma_row_dst_index(offset as int, stride as int, w as int, y as int, x);
                        assert(dstp[offset + y as int * stride + x] == dst0[offset + y as int
                            * stride + x]);
                        assert(0 <= cell_of(x) < 64 * bw) by (nonlinear_arith)
                            requires
                                0 <= x < w && w <= covw && covw <= 4 * 64 * bw && cell_of(x) == x
                                    / 4,
                        ;
                        lemma_row_bit_glue(pre, y as int, cell_of(x));
                        assert(row_bit(bitsp, y as int * bw, cell_of(x)) == pre.bit_set(
                            y as int,
                            cell_of(x),
                        )) by {
                            assert(0 <= cell_of(x) / 64 < bw) by (nonlinear_arith)
                                requires
                                    0 <= cell_of(x) < 64 * bw,
                            ;
                            assert(bitsp[y as int * bw + cell_of(x) / 64] == bits0[y as int * bw
                                + cell_of(x) / 64]);
                        }
                        assert(covp.subrange(y as int * covw, y as int * covw + covw)
                            =~= pre.coverage@.subrange(y as int * covw, (y as int + 1) * covw));
                    }
                    // Rows already swept keep their pixels.
                    assert forall|yy: int, x: int|
                        y_lo <= yy < y && yy < h && 0 <= x < w implies #[trigger] dst@[offset + yy
                        * stride + x] == dstp[offset + yy * stride + x] by {
                        assert(offset + yy * stride + x < offset + y as int * stride && offset
                            + yy * stride + x < dst0.len()) by (nonlinear_arith)
                            requires
                                0 <= yy && yy < y as int && y as int <= h - 1 && 0 <= x < w && w
                                    <= stride && offset + (h - 1) * stride + w <= dst0.len(),
                        ;
                    }
                    // The slack beyond the active region is untouched.
                    assert forall|i: int| covw * h <= i < cov0.len() implies #[trigger] cov@[i]
                        == cov0[i] by {
                        assert(y as int * covw + covw <= covw * h) by (nonlinear_arith)
                            requires
                                0 <= y as int && y as int + 1 <= h,
                        ;
                        assert(cov@[i] == covp[i]);
                    }
                    assert forall|i: int| bw * h <= i < bits0.len() implies #[trigger] bits@[i]
                        == bits0[i] by {
                        assert(y as int * bw + bw <= bw * h) by (nonlinear_arith)
                            requires
                                0 <= y as int && y as int + 1 <= h,
                        ;
                        assert(bits@[i] == bitsp[i]);
                    }
                    // Untouched indices stay untouched.
                    assert forall|i: int|
                        0 <= i < dst0.len() && !(offset <= i && y_lo <= (i - offset) / (stride as int) && (
                        i - offset) / (stride as int) < y as int + 1 && (i - offset) / (stride as int) < h && (i
                            - offset) % (stride as int) < w) implies #[trigger] dst@[i] == dst0[i] by {
                        if offset + y as int * stride <= i < offset + y as int * stride + w {
                            lemma_row_dst_index_back(
                                offset as int,
                                stride as int,
                                w as int,
                                y as int,
                                i,
                            );
                            assert(false);
                        } else {
                            assert(dst@[i] == dstp[i]);
                        }
                    }
                }
                y = y + 1;
            }
        }
        core::mem::swap(&mut cov, &mut self.coverage);
        core::mem::swap(&mut bits, &mut self.bitmasks);
        self.min_x = usize::MAX;
        self.min_y = usize::MAX;
        self.max_x = 0;
        self.max_y = 0;
        self.touched = Ghost(Set::empty());
        self.ops = Ghost(0nat);
        proof {
            let y_end = y as int;
            // Rows never swept were already clear.
            assert forall|i: int| 0 <= i < self.coverage@.len() implies self.coverage@[i]
                == 0 by {
                if i < covw * h {
                    let yy = i / covw as int;
                    let x = i % covw as int;
                    lemma_split_index(i, covw as int, h as int, covw as int * h as int);
                    assert(i == yy * (covw as int) + x);
                    if y_lo <= yy < y_end {
                        assert(self.coverage@[yy * (covw as int) + x] == 0);
                    } else {
                        assert(self.coverage@[yy * (covw as int) + x] == cov0[yy * (covw as int)
                            + x]);
                        lemma_finish_untouched_row(pre, yy, y_lo as int, y_end);
                        assert(pre.coverage@[yy * (covw as int) + x] == 0);
                    }
                } else {
                    assert(self.coverage@[i] == cov0[i]);
                    assert(pre.coverage@[i] == 0);
                }
            }
            assert forall|i: int| 0 <= i < self.bitmasks@.len() implies self.bitmasks@[i]
                == 0 by {
                if i < bw * h {
                    let yy = i / bw as int;
                    let j = i % bw as int;
                    lemma_split_index(i, bw as int, h as int, bw as int * h as int);
                    assert(i == yy * (bw as int) + j);
                    if y_lo <= yy < y_end {
                        assert(self.bitmasks@[yy * (bw as int) + j] == 0);
                    } else {
                        assert(self.bitmasks@[yy * (bw as int) + j] == bits0[yy * (bw as int)
                            + j]);
                        lemma_finish_untouched_row(pre, yy, y_lo as int, y_end);
                        assert(pre.bitmasks@[yy * (bw as int) + j] == 0);
                    }
                } else {
                    assert(self.bitmasks@[i] == bits0[i]);
                    assert(pre.bitmasks@[i] == 0);
                }
            }
            crate::raster::lemma_empty_wf(*self);
            // Pixels of rows the sweep never visited keep the formula: their
            // bits are clear and their coverage prefixes are zero, so the
            // formula gives the pixel back, and those pixels were not
            // written.
            assert forall|yy: int, x: int|
                0 <= yy < h && 0 <= x < w implies dst@[offset + yy * stride + x] as int
                == out_pixel(
                pre.bit_set(yy, cell_of(x)),
                sat_cov(pre.cov_prefix(yy, x)),
                color,
                #[trigger] dst0[offset + yy * stride + x] as int,
            ) by {
                assert(offset + yy * stride + x < dst0.len()) by (nonlinear_arith)
                    requires
                        0 <= yy < h && 0 <= x < w && offset + (h - 1) * stride + w <= dst0.len()
                            && stride >= 0,
                ;
                if y_lo <= yy < y_end {
                } else {
                    lemma_finish_untouched_row(pre, yy, y_lo as int, y_end);
                    assert(0 <= cell_of(x) < 64 * bw) by (nonlinear_arith)
                        requires
                            0 <= x < w && w <= covw && covw <= 4 * 64 * bw && cell_of(x) == x / 4,
                    ;
                    assert(!pre.bit_set(yy, cell_of(x) * 1));
                    assert(sat_cov(pre.cov_prefix(yy, x)) == 0);
                    lemma_row_dst_index(offset as int, stride as int, w as int, yy, x);
                    assert(dst@[offset + yy * stride + x] == dst0[offset + yy * stride + x]);
                }
            }
        }
    }
}

/// One row of the partially swept buffer equals the original row when the
/// sweep has not visited it.
proof fn lemma_row_slice_eq(
    cov: Seq<i64>,
    cov0: Seq<i64>,
    covw: int,
    h: int,
    y: int,
    y_lo: int,
    ycur: int,
)
    requires
        cov.len() == cov0.len(),
        cov0.len() >= covw * h,
        0 <= y < h,
        0 <= covw,
        forall|yy: int, x: int|
            0 <= yy < h && 0 <= x < covw ==> #[trigger] cov[yy * covw + x] == (if y_lo <= yy
                < ycur {
                0i64
            } else {
                cov0[yy * covw + x]
            }),
        !(y_lo <= y < ycur),
    ensures
        cov.subrange(y * covw, y * covw + covw) =~= cov0.subrange(y * covw, (y + 1) * covw),
{
    assert(0 <= y * covw && (y + 1) * covw == y * covw + covw && (y + 1) * covw <= covw * h)
        by (nonlinear_arith)
        requires
            0 <= y < h && 0 <= covw,
    ;
    let s1 = cov.subrange(y * covw, y * covw + covw);
    let s2 = cov0.subrange(y * covw, (y + 1) * covw);
    assert forall|k: int| 0 <= k < covw implies s1[k] == s2[k] by {
        assert(cov[y * covw + k] == cov0[y * covw + k]);
    }
    assert(s1 =~= s2);
}

/// Split a row-major index into its row and column.
proof fn lemma_split_index(i: int, w: int, h: int, len: int)
    by (nonlinear_arith)
    requires
        w > 0,
        len == w * h,
        0 <= i < len,
    ensures
        0 <= i / w < h,
        0 <= i % w < w,
        i == (i / w) * w + i % w,
{
}

/// The facts `composite_row` needs about one dirty row of a well-formed
/// rasterizer.
proof fn lemma_finish_row_facts(pre: Rasterizer, y: int)
    requires
        pre.wf(),
        0 <= y < pre.height,
    ensures
        0 <= y * pre.cov_w && (y + 1) * pre.cov_w == y * pre.cov_w + pre.cov_w && (y + 1)
            * pre.cov_w <= pre.coverage@.len(),
        0 <= y * pre.bitmasks_width && (y + 1) * pre.bitmasks_width == y * pre.bitmasks_width
            + pre.bitmasks_width && (y + 1) * pre.bitmasks_width <= pre.bitmasks@.len(),
        abs_sum(pre.coverage@.subrange(y * pre.cov_w, y * pre.cov_w + pre.cov_w)) <= OPS_MAX
            * COV_ONE,
{
    let covw = pre.cov_w as int;
    let bw = pre.bitmasks_width as int;
    assert(0 <= y * covw && (y + 1) * covw == y * covw + covw && (y + 1) * covw <= covw
        * pre.height) by (nonlinear_arith)
        requires
            0 <= y < pre.height && 0 <= covw,
    ;
    assert(0 <= y * bw && (y + 1) * bw == y * bw + bw && (y + 1) * bw <= bw * pre.height)
        by (nonlinear_arith)
        requires
            0 <= y < pre.height && 0 <= bw,
    ;
    assert(pre.row_mass(y) <= pre.ops@ * COV_ONE);
    assert(pre.ops@ * COV_ONE <= OPS_MAX * COV_ONE) by (nonlinear_arith)
        requires
            pre.ops@ <= OPS_MAX && COV_ONE >= 0,
    ;
    assert(pre.coverage@.subrange(y * covw, y * covw + covw) =~= pre.coverage@.subrange(
        y * covw,
        (y + 1) * covw,
    ));
}

/// `row_bit` on a row slice of the bitmask buffer is `bit_set`.
proof fn lemma_row_bit_glue(pre: Rasterizer, y: int, c: int)
    requires
        pre.dims_ok(),
        0 <= y < pre.height,
        0 <= c < 64 * pre.bitmasks_width,
    ensures
        row_bit(pre.bitmasks@, y * pre.bitmasks_width, c) == pre.bit_set(y, c),
{
    assert(c % 64 % 64 == c % 64 && 0 <= c % 64 < 64 && crate::raster::word_of(c) == c / 64)
        by (nonlinear_arith)
        requires
            0 <= c,
    ;
    assert(cell_mask(c % 64) == cell_mask(c));
}

/// The destination index of pixel `(y, x)` decomposes back to `(y, x)`.
proof fn lemma_row_dst_index(offset: int, stride: int, w: int, y: int, x: int)
    by (nonlinear_arith)
    requires
        0 < w <= stride,
        0 <= y,
        0 <= x < w,
    ensures
        (offset + y * stride + x - offset) / (stride as int) == y,
        (offset + y * stride + x - offset) % (stride as int) == x,
{
}

/// An index inside row `y`'s written span decomposes to row `y` and a
/// column under `w`.
proof fn lemma_row_dst_index_back(offset: int, stride: int, w: int, y: int, i: int)
    by (nonlinear_arith)
    requires
        0 < w <= stride,
        0 <= y,
        offset + y * stride <= i < offset + y * stride + w,
    ensures
        (i - offset) / (stride as int) == y,
        (i - offset) % (stride as int) < w,
        offset <= i,
{
}

} // verus!
