//! The analytic area-coverage rasterizer.
//!
//! Line segments are accumulated as signed per-pixel coverage deltas in a
//! dense buffer, one `i64` per pixel, in units of `COV_ONE` per fully covered
//! pixel. A bitmask row per scanline — 64 bits per word, **most significant
//! bit first**, one bit per 4-pixel cell — records which cells received
//! deltas, so the compositor can skip empty runs with `leading_zeros`.

use vstd::prelude::*;

use crate::covmath::abs_sum;
use crate::covmath::iabs;
use crate::covmath::lemma_abs_sum_entry;
use crate::covmath::lemma_abs_sum_update;
use crate::covmath::spec_imax;
use crate::covmath::spec_imin;
use crate::COV_ONE;

verus! {

/// Pixels per bitmask bit.
pub const PIXELS_PER_BIT: usize = 4;

/// Bits per bitmask word.
pub const BITS_PER_BITMASK: usize = 64;

/// Pixels per bitmask word: `PIXELS_PER_BIT * BITS_PER_BITMASK`.
pub const PIXELS_PER_BITMASK: usize = 256;

/// Largest width or height, in pixels, the rasterizer accepts.
pub const MAX_DIM: usize = 0x1_0000;

/// Most deltas a rasterizer accepts between resets; keeps every coverage
/// entry and every running sum far away from `i64` overflow.
pub const OPS_MAX: u64 = 0x400_0000_0000;

/// Most deltas one `add_line` call can emit.
pub const LINE_OPS_MAX: u64 = 0x10_0000;

/// How many bitmask words one row needs: the width in pixels, rounded up
/// to a whole number of 64-bit words of 4-pixel cells.
pub fn bitmask_count_for_width(width: usize) -> (n: usize)
    requires
        width <= MAX_DIM,
    ensures
        n == (width + 255) / 256,
{
    (width + 255) / 256
}

/// The 4-pixel cell containing pixel column `x`.
pub open spec fn cell_of(x: int) -> int {
    x / 4
}

/// The bitmask word holding cell `c` within a row.
pub open spec fn word_of(c: int) -> int {
    c / 64
}

/// The single-bit mask of cell `c` inside its word, MSB-first: cell 0 is the
/// highest bit, so `leading_zeros` finds the leftmost dirty cell.
pub open spec fn cell_mask(c: int) -> u64 {
    1u64 << ((63 - c % 64) as u64)
}

/// What one delta contributes to the coverage entry at `(yy, xx)`, for a
/// raster `w` pixels wide and `h` rows tall. Deltas on rows outside the
/// raster or at columns at or beyond `w` are clipped; a delta left of column
/// zero folds its entire height onto column zero, so that coverage reaching
/// in from the left edge still propagates across the row.
pub open spec fn delta_contrib(
    x: int,
    y: int,
    height: int,
    area: int,
    w: int,
    h: int,
    yy: int,
    xx: int,
) -> int {
    if (height == 0 && area == 0) || yy != y || y < 0 || y >= h || x >= w {
        0
    } else if x < 0 {
        if xx == 0 {
            height
        } else {
            0
        }
    } else if xx == x {
        area
    } else if xx == x + 1 && x + 1 < w {
        height - area
    } else {
        0
    }
}

/// The cells one delta marks: exactly the cells that receive a nonzero
/// value from it. A delta clipped away, or one whose value at a column is
/// zero, marks nothing there — the bitmask stays a tight index of the
/// cells that received a nonzero delta.
pub open spec fn delta_marks(x: int, y: int, height: int, area: int, w: int, h: int) -> Set<
    (int, int),
> {
    if w <= 0 || y < 0 || y >= h || x >= w {
        Set::empty()
    } else if x < 0 {
        if height != 0 {
            set![(y, 0int)]
        } else {
            Set::empty()
        }
    } else {
        (if area != 0 {
            set![(y, cell_of(x))]
        } else {
            Set::empty()
        }).union(
            if x + 1 < w && height - area != 0 {
                set![(y, cell_of(x + 1))]
            } else {
                Set::empty()
            },
        )
    }
}

/// A reusable scratchpad: coverage deltas and the bitmask index for one
/// raster region. Created with [`Rasterizer::with_size`], filled by
/// `add_line`, consumed and reset by `finish`.
pub struct Rasterizer {
    /// Logical width in pixels; only columns `0..width` are ever composited.
    pub width: usize,
    pub height: usize,
    /// Coverage row width: `width` rounded up to a whole number of cells.
    pub cov_w: usize,
    pub coverage: Vec<i64>,
    /// Bitmask words per row.
    pub bitmasks_width: usize,
    pub bitmasks: Vec<u64>,
    /// Dirty bounds: conservative pixel bounds of all deltas accepted since
    /// the last reset. `min_x`/`min_y` are `usize::MAX` when clean.
    pub min_x: usize,
    pub min_y: usize,
    pub max_x: usize,
    pub max_y: usize,
    /// The cells marked since the last reset, as `(row, cell)` pairs.
    pub touched: Ghost<Set<(int, int)>>,
    /// Deltas accepted since the last reset.
    pub ops: Ghost<nat>,
}

impl Rasterizer {
    /// The coverage entry at row `yy`, column `xx`.
    pub open spec fn cov_at(self, yy: int, xx: int) -> int {
        self.coverage@[yy * self.cov_w + xx] as int
    }

    /// The signed mass (sum of absolute values) of one coverage row.
    pub open spec fn row_mass(self, yy: int) -> int {
        abs_sum(self.coverage@.subrange(yy * self.cov_w, (yy + 1) * self.cov_w))
    }

    /// Whether the bitmask bit of cell `c` in row `yy` is set.
    pub open spec fn bit_set(self, yy: int, c: int) -> bool {
        self.bitmasks@[yy * self.bitmasks_width + word_of(c)] & cell_mask(c) != 0
    }

    /// The two raster dimensions and the derived buffer shapes agree.
    pub open spec fn dims_ok(self) -> bool {
        &&& self.width <= MAX_DIM
        &&& self.height <= MAX_DIM
        &&& self.cov_w == ((self.width + 3) / 4) * 4
        &&& self.bitmasks_width == (self.width + 255) / 256
        &&& self.coverage@.len() >= self.cov_w * self.height
        &&& self.bitmasks@.len() >= self.bitmasks_width * self.height
        &&& self.cov_w <= 4 * 64 * self.bitmasks_width
    }

    /// Same shape as another rasterizer.
    pub open spec fn same_dims(self, other: Rasterizer) -> bool {
        &&& self.width == other.width
        &&& self.height == other.height
        &&& self.cov_w == other.cov_w
        &&& self.bitmasks_width == other.bitmasks_width
    }

    /// The rasterizer's invariant.
    ///
    /// - every coverage row's mass is bounded by the delta budget spent, so
    ///   no addition or running sum can overflow;
    /// - a nonzero coverage entry always sits in a marked cell;
    /// - a bitmask bit is set exactly for the cells marked since the last
    ///   reset (bitmask tightness);
    /// - marked cells lie inside the raster and inside the dirty bounds.
    pub open spec fn wf(self) -> bool {
        &&& self.dims_ok()
        &&& self.ops@ <= OPS_MAX
        &&& forall|yy: int|
            0 <= yy < self.height ==> #[trigger] self.row_mass(yy) <= self.ops@ * COV_ONE
        &&& forall|yy: int, xx: int|
            0 <= yy < self.height && 0 <= xx < self.cov_w && #[trigger] self.cov_at(yy, xx) != 0
                ==> self.touched@.contains((yy, cell_of(xx)))
        &&& forall|yy: int, c: int|
            0 <= yy < self.height && 0 <= c < 64 * self.bitmasks_width ==> (#[trigger] self.bit_set(
                yy,
                c,
            ) <==> self.touched@.contains((yy, c)))
        &&& forall|p: (int, int)| #[trigger]
            self.touched@.contains(p)
                ==> (0 <= p.0 < self.height && 0 <= p.1 && 4 * p.1 < self.width && self.min_y
                <= p.0 <= self.max_y && self.min_x <= 4 * p.1 + 3 && 4 * p.1 <= self.max_x)
        &&& forall|i: int|
            self.cov_w * self.height <= i < self.coverage@.len() ==> #[trigger] self.coverage@[i]
                == 0
        &&& forall|i: int|
            self.bitmasks_width * self.height <= i < self.bitmasks@.len()
                ==> #[trigger] self.bitmasks@[i] == 0
    }

    /// Nothing accumulated: every delta has been consumed or never added.
    pub open spec fn clean(self) -> bool {
        &&& self.wf()
        &&& self.ops@ == 0
        &&& self.touched@ =~= Set::<(int, int)>::empty()
        &&& self.min_x == usize::MAX && self.min_y == usize::MAX
        &&& self.max_x == 0 && self.max_y == 0
        &&& forall|i: int| 0 <= i < self.coverage@.len() ==> self.coverage@[i] == 0
        &&& forall|i: int| 0 <= i < self.bitmasks@.len() ==> self.bitmasks@[i] == 0
    }

    /// An empty rasterizer; resize it with [`Rasterizer::set_size`].
    pub fn new() -> (r: Rasterizer)
        ensures
            r.clean(),
            r.width == 0,
            r.height == 0,
    {
        Rasterizer {
            width: 0,
            height: 0,
            cov_w: 0,
            coverage: Vec::new(),
            bitmasks_width: 0,
            bitmasks: Vec::new(),
            min_x: usize::MAX,
            min_y: usize::MAX,
            max_x: 0,
            max_y: 0,
            touched: Ghost(Set::empty()),
            ops: Ghost(0nat),
        }
    }

    /// A rasterizer for a `width` by `height` pixel region.
    pub fn with_size(width: usize, height: usize) -> (r: Rasterizer)
        requires
            width <= MAX_DIM,
            height <= MAX_DIM,
            (width + 3) * height <= 0x1000_0000,
        ensures
            r.clean(),
            r.width == width,
            r.height == height,
    {
        let mut r = Rasterizer::new();
        r.set_size(width, height);
        r
    }

    /// Resize a clean rasterizer. Buffers that are already large enough are
    /// kept (they are all zero); smaller ones are replaced by zeroed buffers
    /// of the new size, so buffers grow but never shrink.
    pub fn set_size(&mut self, width: usize, height: usize)
        requires
            old(self).clean(),
            width <= MAX_DIM,
            height <= MAX_DIM,
            (width + 3) * height <= 0x1000_0000,
        ensures
            final(self).clean(),
            final(self).width == width,
            final(self).height == height,
            final(self).coverage@.len() >= old(self).coverage@.len(),
            final(self).bitmasks@.len() >= old(self).bitmasks@.len(),
            final(self).coverage@.len() >= final(self).cov_w * height,
            final(self).bitmasks@.len() >= final(self).bitmasks_width * height,
    {
        self.width = width;
        self.height = height;
        self.cov_w = ((width + 3) / 4) * 4;
        self.bitmasks_width = bitmask_count_for_width(width);
        proof {
            lemma_dim_bounds(width as int);
            assert(self.cov_w * height <= (width + 3) * height) by (nonlinear_arith)
                requires
                    self.cov_w <= width + 3 && height >= 0,
            ;
            assert(self.bitmasks_width <= self.cov_w);
            assert(self.bitmasks_width * height <= self.cov_w * height) by (nonlinear_arith)
                requires
                    self.bitmasks_width <= self.cov_w && height >= 0,
            ;
        }
        if self.coverage.len() < self.cov_w * height {
            self.coverage = zero_vec_i64(self.cov_w * height);
        }
        if self.bitmasks.len() < self.bitmasks_width * height {
            self.bitmasks = zero_vec_u64(self.bitmasks_width * height);
        }
        self.min_x = usize::MAX;
        self.min_y = usize::MAX;
        self.max_x = 0;
        self.max_y = 0;
        self.touched = Ghost(Set::empty());
        self.ops = Ghost(0nat);
        proof {
            lemma_empty_wf(*self);
        }
    }

    pub fn width(&self) -> (w: usize)
        ensures
            w == self.width,
    {
        self.width
    }

    pub fn height(&self) -> (h: usize)
        ensures
            h == self.height,
    {
        self.height
    }

    /// The coverage entry at `(y, x)`, for inspection.
    pub fn coverage_value(&self, y: usize, x: usize) -> (v: i64)
        requires
            self.dims_ok(),
            y < self.height,
            x < self.cov_w,
        ensures
            v == self.cov_at(y as int, x as int),
    {
        let n = self.coverage.len();
        proof {
            lemma_row_index(
                self.cov_w as int,
                self.height as int,
                y as int,
                x as int,
                n as int,
            );
        }
        self.coverage[y * self.cov_w + x]
    }

    /// One bitmask word, for inspection: word `w` of row `y`, MSB-first.
    pub fn bitmask_word(&self, y: usize, w: usize) -> (v: u64)
        requires
            self.dims_ok(),
            y < self.height,
            w < self.bitmasks_width,
        ensures
            v == self.bitmasks@[y as int * self.bitmasks_width + w as int],
    {
        let n = self.bitmasks.len();
        proof {
            lemma_row_index(
                self.bitmasks_width as int,
                self.height as int,
                y as int,
                w as int,
                n as int,
            );
        }
        self.bitmasks[y * self.bitmasks_width + w]
    }

    /// Record one coverage delta: `area` at `(x, y)` and `height - area` at
    /// `(x + 1, y)`, marking each cell that receives a nonzero value (and
    /// only those, so the bitmask stays tight). Rows outside the raster and
    /// columns at or beyond the width are clipped; a delta left of column
    /// zero folds its entire `height` onto column zero and marks the row's
    /// leftmost cell, so coverage crossing the left edge still propagates.
    /// `height` and `area` are in coverage units (`COV_ONE` is one fully
    /// covered pixel), and `area` never exceeds `height`.
    pub fn add_delta(&mut self, x: i64, y: i64, height: i64, area: i64)
        requires
            old(self).wf(),
            old(self).ops@ < OPS_MAX,
            -COV_ONE <= height <= COV_ONE,
            (0 <= area <= height) || (height <= area <= 0),
        ensures
            final(self).wf(),
            final(self).same_dims(*old(self)),
            final(self).ops@ <= old(self).ops@ + 1,
            old(self).touched@.subset_of(final(self).touched@),
            forall|yy: int, xx: int|
                0 <= yy < old(self).height && 0 <= xx < old(self).cov_w
                    ==> #[trigger] final(self).cov_at(yy, xx) == old(self).cov_at(yy, xx)
                    + delta_contrib(
                    x as int,
                    y as int,
                    height as int,
                    area as int,
                    old(self).width as int,
                    old(self).height as int,
                    yy,
                    xx,
                ),
            final(self).touched@ =~= old(self).touched@.union(
                delta_marks(
                    x as int,
                    y as int,
                    height as int,
                    area as int,
                    old(self).width as int,
                    old(self).height as int,
                ),
            ),
    {
        proof {
            let marks = delta_marks(
                x as int,
                y as int,
                height as int,
                area as int,
                self.width as int,
                self.height as int,
            );
        }
        if height == 0 && area == 0 {
            proof {
                lemma_union_empty(self.touched@);
            }
            return ;
        }
        if y < 0 || y >= self.height as i64 {
            proof {
                lemma_union_empty(self.touched@);
            }
            return ;
        }
        if x >= self.width as i64 {
            proof {
                lemma_union_empty(self.touched@);
            }
            return ;
        }
        if self.width == 0 {
            proof {
                lemma_union_empty(self.touched@);
            }
            return ;
        }
        let ghost pre = *self;
        let yi = y as usize;
        if x < 0 {
            if height == 0 {
                proof {
                    lemma_union_empty(self.touched@);
                }
                return ;
            }
            proof {
                lemma_entry_bound(*self, yi as int, 0);
                lemma_cell_split(0, self.cov_w as int, self.bitmasks_width as int);
            }
            self.bump_cov(yi, 0, height);
            let ghost s1 = *self;
            self.set_bit(yi, 0);
            let ghost s2 = *self;
            self.touch(yi, 0, 0, 0);
            proof {
                lemma_same_cov(*self, s2);
                lemma_same_cov(s2, s1);
                lemma_same_bits(*self, s2);
                lemma_same_bits(s1, pre);
                let ci = yi as int * pre.cov_w + 0;
                let cv = (pre.cov_at(yi as int, 0) + height as int) as i64;
                lemma_row_index(
                    pre.cov_w as int,
                    pre.height as int,
                    yi as int,
                    0,
                    pre.coverage@.len() as int,
                );
                assert(self.coverage@ == pre.coverage@.update(ci, cv).update(ci, cv)) by {
                    assert(pre.coverage@.update(ci, cv).update(ci, cv) =~= pre.coverage@.update(
                        ci,
                        cv,
                    ));
                }
                Self::lemma_cov_slack(pre, self.coverage@, yi as int, 0, 0, cv, cv);
                let bi = yi as int * pre.bitmasks_width + 0;
                let bv = (pre.bitmasks@[bi] | cell_mask(0)) as u64;
                lemma_row_index(
                    pre.bitmasks_width as int,
                    pre.height as int,
                    yi as int,
                    0,
                    pre.bitmasks@.len() as int,
                );
                assert(self.bitmasks@ == pre.bitmasks@.update(bi, bv).update(bi, bv)) by {
                    assert(pre.bitmasks@.update(bi, bv).update(bi, bv) =~= pre.bitmasks@.update(
                        bi,
                        bv,
                    ));
                }
                Self::lemma_bit_slack(pre, self.bitmasks@, yi as int, 0, 0, bv, bv);
                lemma_delta_wf(pre, *self, yi as int, 0, 0, iabs(height as int));
                assert(self.touched@ =~= pre.touched@.union(set![(y as int, 0int)]));
            }
            return ;
        }
        let xi = x as usize;
        let m1 = xi + 1 < self.width && height - area != 0;
        let m0 = area != 0;
        if !m0 && !m1 {
            proof {
                lemma_union_empty(self.touched@);
            }
            return ;
        }
        proof {
            lemma_entry_bound(*self, yi as int, xi as int);
            lemma_cell_split(xi as int, self.cov_w as int, self.bitmasks_width as int);
        }
        if m0 && m1 {
            proof {
                lemma_entry_bound(*self, yi as int, xi as int + 1);
                lemma_cell_split(xi as int + 1, self.cov_w as int, self.bitmasks_width as int);
            }
            self.bump_cov(yi, xi, area);
            let ghost mid = *self;
            self.bump_cov(yi, xi + 1, height - area);
            let ghost s1 = *self;
            proof {
                assert(s1.row_mass(yi as int) <= pre.row_mass(yi as int) + iabs(height as int));
            }
            self.set_bit(yi, xi / 4);
            self.set_bit(yi, (xi + 1) / 4);
            let ghost s2 = *self;
            self.touch(yi, xi, xi / 4, (xi + 1) / 4);
            proof {
                lemma_same_cov(*self, s2);
                lemma_same_cov(s2, s1);
                lemma_same_bits(*self, s2);
                lemma_same_bits(s1, mid);
                lemma_same_bits(mid, pre);
                let ci0 = yi as int * pre.cov_w + xi as int;
                let cv0 = (pre.cov_at(yi as int, xi as int) + area as int) as i64;
                let ci1 = yi as int * pre.cov_w + xi as int + 1;
                let cv1 = (pre.cov_at(yi as int, xi as int + 1) + (height - area) as int) as i64;
                assert(self.coverage@ == pre.coverage@.update(ci0, cv0).update(ci1, cv1));
                Self::lemma_cov_slack(
                    pre,
                    self.coverage@,
                    yi as int,
                    xi as int,
                    xi as int + 1,
                    cv0,
                    cv1,
                );
                let bi0 = yi as int * pre.bitmasks_width + (xi as int / 4) / 64;
                let bv0 = (pre.bitmasks@[bi0] | cell_mask(xi as int / 4)) as u64;
                let bi1 = yi as int * pre.bitmasks_width + ((xi + 1) as int / 4) / 64;
                let bv1 = (s1.bitmasks@.update(bi0, bv0)[bi1] | cell_mask((xi + 1) as int / 4)) as u64;
                assert(self.bitmasks@ == pre.bitmasks@.update(bi0, bv0).update(bi1, bv1));
                Self::lemma_bit_slack(
                    pre,
                    self.bitmasks@,
                    yi as int,
                    xi as int / 4,
                    (xi + 1) as int / 4,
                    bv0,
                    bv1,
                );
                lemma_delta_wf(
                    pre,
                    *self,
                    yi as int,
                    xi as int / 4,
                    (xi + 1) as int / 4,
                    iabs(height as int),
                );
                assert(self.touched@ =~= pre.touched@.union(
                    set![(y as int, cell_of(x as int))].union(
                        set![(y as int, cell_of(x as int + 1))],
                    ),
                ));
            }
        } else if m0 {
            self.bump_cov(yi, xi, area);
            let ghost s1 = *self;
            self.set_bit(yi, xi / 4);
            let ghost s2 = *self;
            self.touch(yi, xi, xi / 4, xi / 4);
            proof {
                lemma_same_cov(*self, s2);
                lemma_same_cov(s2, s1);
                lemma_same_bits(*self, s2);
                lemma_same_bits(s1, pre);
                let ci = yi as int * pre.cov_w + xi as int;
                let cv = (pre.cov_at(yi as int, xi as int) + area as int) as i64;
                lemma_row_index(
                    pre.cov_w as int,
                    pre.height as int,
                    yi as int,
                    xi as int,
                    pre.coverage@.len() as int,
                );
                assert(self.coverage@ == pre.coverage@.update(ci, cv).update(ci, cv)) by {
                    assert(pre.coverage@.update(ci, cv).update(ci, cv) =~= pre.coverage@.update(
                        ci,
                        cv,
                    ));
                }
                Self::lemma_cov_slack(pre, self.coverage@, yi as int, xi as int, xi as int, cv, cv);
                let bi = yi as int * pre.bitmasks_width + (xi as int / 4) / 64;
                let bv = (pre.bitmasks@[bi] | cell_mask(xi as int / 4)) as u64;
                assert(0 <= (xi as int / 4) / 64 < pre.bitmasks_width) by (nonlinear_arith)
                    requires
                        0 <= xi as int / 4 < 64 * pre.bitmasks_width,
                ;
                lemma_row_index(
                    pre.bitmasks_width as int,
                    pre.height as int,
                    yi as int,
                    (xi as int / 4) / 64,
                    pre.bitmasks@.len() as int,
                );
                assert(self.bitmasks@ == pre.bitmasks@.update(bi, bv).update(bi, bv)) by {
                    assert(pre.bitmasks@.update(bi, bv).update(bi, bv) =~= pre.bitmasks@.update(
                        bi,
                        bv,
                    ));
                }
                Self::lemma_bit_slack(
                    pre,
                    self.bitmasks@,
                    yi as int,
                    xi as int / 4,
                    xi as int / 4,
                    bv,
                    bv,
                );
                lemma_delta_wf(
                    pre,
                    *self,
                    yi as int,
                    xi as int / 4,
                    xi as int / 4,
                    iabs(height as int),
                );
                assert(self.touched@ =~= pre.touched@.union(set![(y as int, cell_of(x as int))]));
            }
        } else {
            proof {
                lemma_entry_bound(*self, yi as int, xi as int + 1);
                lemma_cell_split(xi as int + 1, self.cov_w as int, self.bitmasks_width as int);
            }
            self.bump_cov(yi, xi + 1, height - area);
            let ghost s1 = *self;
            self.set_bit(yi, (xi + 1) / 4);
            let ghost s2 = *self;
            self.touch(yi, xi, (xi + 1) / 4, (xi + 1) / 4);
            proof {
                lemma_same_cov(*self, s2);
                lemma_same_cov(s2, s1);
                lemma_same_bits(*self, s2);
                lemma_same_bits(s1, pre);
                let ci = yi as int * pre.cov_w + xi as int + 1;
                let cv = (pre.cov_at(yi as int, xi as int + 1) + (height - area) as int) as i64;
                lemma_row_index(
                    pre.cov_w as int,
                    pre.height as int,
                    yi as int,
                    xi as int + 1,
                    pre.coverage@.len() as int,
                );
                assert(self.coverage@ == pre.coverage@.update(ci, cv).update(ci, cv)) by {
                    assert(pre.coverage@.update(ci, cv).update(ci, cv) =~= pre.coverage@.update(
                        ci,
                        cv,
                    ));
                }
                Self::lemma_cov_slack(
                    pre,
                    self.coverage@,
                    yi as int,
                    xi as int + 1,
                    xi as int + 1,
                    cv,
                    cv,
                );
                let bi = yi as int * pre.bitmasks_width + ((xi + 1) as int / 4) / 64;
                let bv = (pre.bitmasks@[bi] | cell_mask((xi + 1) as int / 4)) as u64;
                assert(0 <= ((xi + 1) as int / 4) / 64 < pre.bitmasks_width) by (nonlinear_arith)
                    requires
                        0 <= (xi + 1) as int / 4 < 64 * pre.bitmasks_width,
                ;
                lemma_row_index(
                    pre.bitmasks_width as int,
                    pre.height as int,
                    yi as int,
                    ((xi + 1) as int / 4) / 64,
                    pre.bitmasks@.len() as int,
                );
                assert(self.bitmasks@ == pre.bitmasks@.update(bi, bv).update(bi, bv)) by {
                    assert(pre.bitmasks@.update(bi, bv).update(bi, bv) =~= pre.bitmasks@.update(
                        bi,
                        bv,
                    ));
                }
                Self::lemma_bit_slack(
                    pre,
                    self.bitmasks@,
                    yi as int,
                    (xi + 1) as int / 4,
                    (xi + 1) as int / 4,
                    bv,
                    bv,
                );
                lemma_delta_wf(
                    pre,
                    *self,
                    yi as int,
                    (xi + 1) as int / 4,
                    (xi + 1) as int / 4,
                    iabs(height as int),
                );
                assert(self.touched@ =~= pre.touched@.union(
                    set![(y as int, cell_of(x as int + 1))],
                ));
            }
        }
    }

    /// The slack beyond the active region is untouched when the coverage
    /// was updated only at columns `x0`, `x1` of row `yi`.
    proof fn lemma_cov_slack(pre: Rasterizer, post: Seq<i64>, yi: int, x0: int, x1: int, v0: i64, v1: i64)
        requires
            pre.dims_ok(),
            0 <= yi < pre.height,
            0 <= x0 < pre.cov_w,
            0 <= x1 < pre.cov_w,
            post == pre.coverage@.update(yi * pre.cov_w + x0, v0).update(
                yi * pre.cov_w + x1,
                v1,
            ),
        ensures
            forall|i: int|
                pre.cov_w * pre.height <= i < post.len() ==> #[trigger] post[i]
                    == pre.coverage@[i],
    {
        lemma_row_index(
            pre.cov_w as int,
            pre.height as int,
            yi,
            x0,
            pre.cov_w as int * pre.height as int,
        );
        lemma_row_index(
            pre.cov_w as int,
            pre.height as int,
            yi,
            x1,
            pre.cov_w as int * pre.height as int,
        );
        assert(pre.cov_w as int * pre.height as int <= pre.coverage@.len());
    }

    /// The slack beyond the active region is untouched when the bitmask was
    /// updated only at the words of cells `c0`, `c1` of row `yi`.
    proof fn lemma_bit_slack(pre: Rasterizer, post: Seq<u64>, yi: int, c0: int, c1: int, v0: u64, v1: u64)
        requires
            pre.dims_ok(),
            0 <= yi < pre.height,
            0 <= c0 < 64 * pre.bitmasks_width,
            0 <= c1 < 64 * pre.bitmasks_width,
            post == pre.bitmasks@.update(yi * pre.bitmasks_width + c0 / 64, v0).update(
                yi * pre.bitmasks_width + c1 / 64,
                v1,
            ),
        ensures
            forall|i: int|
                pre.bitmasks_width * pre.height <= i < post.len() ==> #[trigger] post[i]
                    == pre.bitmasks@[i],
    {
        assert(0 <= c0 / 64 < pre.bitmasks_width && 0 <= c1 / 64 < pre.bitmasks_width)
            by (nonlinear_arith)
            requires
                0 <= c0 < 64 * pre.bitmasks_width && 0 <= c1 < 64 * pre.bitmasks_width,
        ;
        lemma_row_index(
            pre.bitmasks_width as int,
            pre.height as int,
            yi,
            c0 / 64,
            pre.bitmasks_width as int * pre.height as int,
        );
        lemma_row_index(
            pre.bitmasks_width as int,
            pre.height as int,
            yi,
            c1 / 64,
            pre.bitmasks_width as int * pre.height as int,
        );
        assert(pre.bitmasks_width as int * pre.height as int <= pre.bitmasks@.len());
    }

    /// Widen the dirty bounds to cover column `xi` in row `yi`, and mark the
    /// two cells in the ghost set.
    fn touch(&mut self, yi: usize, xi: usize, c0: usize, c1: usize)
        requires
            c0 <= c1 <= MAX_DIM,
        ensures
            final(self).coverage == old(self).coverage,
            final(self).bitmasks == old(self).bitmasks,
            final(self).width == old(self).width,
            final(self).height == old(self).height,
            final(self).cov_w == old(self).cov_w,
            final(self).bitmasks_width == old(self).bitmasks_width,
            final(self).touched@ == old(self).touched@.insert((yi as int, c0 as int)).insert(
                (yi as int, c1 as int),
            ),
            final(self).ops@ == old(self).ops@ + 1,
            final(self).min_x as int == spec_imin(old(self).min_x as int, xi as int),
            final(self).max_x as int == spec_imax(old(self).max_x as int, 4 * c1 as int),
            final(self).min_y as int == spec_imin(old(self).min_y as int, yi as int),
            final(self).max_y as int == spec_imax(old(self).max_y as int, yi as int),
    {
        if xi < self.min_x {
            self.min_x = xi;
        }
        let hi = 4 * c1;
        if hi > self.max_x {
            self.max_x = hi;
        }
        if yi < self.min_y {
            self.min_y = yi;
        }
        if yi > self.max_y {
            self.max_y = yi;
        }
        self.touched = Ghost(
            self.touched@.insert((yi as int, c0 as int)).insert((yi as int, c1 as int)),
        );
        self.ops = Ghost(self.ops@ + 1);
    }

    /// Add `dv` to the coverage entry at `(yi, xi)`.
    fn bump_cov(&mut self, yi: usize, xi: usize, dv: i64)
        requires
            old(self).dims_ok(),
            yi < old(self).height,
            xi < old(self).cov_w,
            iabs(old(self).cov_at(yi as int, xi as int)) + iabs(dv as int)
                < 0x4000_0000_0000_0000,
        ensures
            final(self).dims_ok(),
            final(self).same_dims(*old(self)),
            final(self).width == old(self).width,
            final(self).height == old(self).height,
            final(self).bitmasks == old(self).bitmasks,
            final(self).min_x == old(self).min_x,
            final(self).min_y == old(self).min_y,
            final(self).max_x == old(self).max_x,
            final(self).max_y == old(self).max_y,
            final(self).touched == old(self).touched,
            final(self).ops == old(self).ops,
            final(self).coverage@.len() == old(self).coverage@.len(),
            forall|yy: int, xx: int|
                0 <= yy < old(self).height && 0 <= xx < old(self).cov_w
                    ==> #[trigger] final(self).cov_at(yy, xx) == (if yy == yi as int && xx == xi as int {
                    old(self).cov_at(yy, xx) + dv as int
                } else {
                    old(self).cov_at(yy, xx)
                }),
            forall|yy: int|
                0 <= yy < old(self).height && yy != yi as int
                    ==> #[trigger] final(self).row_mass(yy) == old(self).row_mass(yy),
            final(self).row_mass(yi as int) <= old(self).row_mass(yi as int) + iabs(dv as int),
            final(self).coverage@ == old(self).coverage@.update(
                yi as int * old(self).cov_w + xi as int,
                (old(self).cov_at(yi as int, xi as int) + dv as int) as i64,
            ),
    {
        let covw = self.cov_w;
        let n = self.coverage.len();
        proof {
            lemma_row_index(covw as int, self.height as int, yi as int, xi as int, n as int);
        }
        let idx = yi * covw + xi;
        let v0 = self.coverage[idx];
        self.coverage[idx] = v0 + dv;
        proof {
            let pre = old(self).coverage@;
            let post = self.coverage@;
            let ii = yi as int * covw + xi as int;
            assert(post =~= pre.update(ii, (v0 + dv) as i64));
            assert forall|yy: int, xx: int|
                0 <= yy < old(self).height && 0 <= xx < old(self).cov_w implies #[trigger] self.cov_at(yy, xx) == (if yy == yi as int && xx == xi as int {
                old(self).cov_at(yy, xx) + dv as int
            } else {
                old(self).cov_at(yy, xx)
            }) by {
                lemma_row_index(covw as int, self.height as int, yy, xx, n as int);
                if yy * covw + xx == ii {
                    lemma_index_unique(yy, yi as int, xx, xi as int, covw as int);
                }
            }
            assert forall|yy: int| 0 <= yy < old(self).height implies (if yy == yi as int {
                #[trigger] self.row_mass(yy) <= old(self).row_mass(yy) + iabs(dv as int)
            } else {
                self.row_mass(yy) == old(self).row_mass(yy)
            }) by {
                assert(0 <= yy * covw && (yy + 1) * covw == yy * covw + covw && (yy + 1) * covw
                    <= covw * self.height) by (nonlinear_arith)
                    requires
                        0 <= yy < self.height && 0 <= covw,
                ;
                if yy == yi as int {
                    let s_pre = pre.subrange(yy * covw, (yy + 1) * covw);
                    let s_post = post.subrange(yy * covw, (yy + 1) * covw);
                    assert(ii == yy * covw + xi as int);
                    assert(s_post =~= s_pre.update(xi as int, (v0 + dv) as i64));
                    lemma_abs_sum_update(s_pre, xi as int, (v0 + dv) as i64);
                    assert(s_pre[xi as int] == v0);
                } else {
                    lemma_row_index(covw as int, self.height as int, yy, 0, n as int);
                    assert(yy * covw + covw <= ii || ii < yy * covw) by (nonlinear_arith)
                        requires
                            0 <= yy < self.height && 0 <= yi < self.height && yy != yi && 0 <= xi
                                < covw && ii == yi * covw + xi,
                    ;
                    assert(post.subrange(yy * covw, (yy + 1) * covw) =~= pre.subrange(
                        yy * covw,
                        (yy + 1) * covw,
                    ));
                }
            }
        }
    }

    /// Set the bitmask bit of cell `cell` in row `y`.
    fn set_bit(&mut self, y: usize, cell: usize)
        requires
            old(self).dims_ok(),
            y < old(self).height,
            cell < 64 * old(self).bitmasks_width,
        ensures
            final(self).coverage == old(self).coverage,
            final(self).same_dims(*old(self)),
            final(self).width == old(self).width,
            final(self).height == old(self).height,
            final(self).min_x == old(self).min_x,
            final(self).min_y == old(self).min_y,
            final(self).max_x == old(self).max_x,
            final(self).max_y == old(self).max_y,
            final(self).touched == old(self).touched,
            final(self).ops == old(self).ops,
            final(self).bitmasks@.len() == old(self).bitmasks@.len(),
            final(self).bitmasks@ == old(self).bitmasks@.update(
                y as int * old(self).bitmasks_width + (cell as int) / 64,
                (old(self).bitmasks@[y as int * old(self).bitmasks_width + (cell as int) / 64]
                    | cell_mask(cell as int)),
            ),
            forall|yy: int, c: int|
                0 <= yy < old(self).height && 0 <= c < 64 * old(self).bitmasks_width ==> (
                #[trigger] final(self).bit_set(yy, c) <==> ((yy == y && c == cell) || old(
                    self,
                ).bit_set(yy, c))),
    {
        let bw = self.bitmasks_width;
        let n = self.bitmasks.len();
        proof {
            assert(0 <= cell as int / 64 < bw as int) by (nonlinear_arith)
                requires
                    cell < 64 * bw && bw >= 0,
            ;
            lemma_row_index(bw as int, self.height as int, y as int, cell as int / 64, n as int);
        }
        let word_idx = y * bw + cell / 64;
        let bit = (cell % 64) as u64;
        let mask: u64 = 1u64 << (63 - bit);
        let w0 = self.bitmasks[word_idx];
        self.bitmasks[word_idx] = w0 | mask;
        proof {
            assert(mask == cell_mask(cell as int));
            assert forall|yy: int, c: int|
                0 <= yy < old(self).height && 0 <= c < 64 * bw implies (#[trigger] self.bit_set(
                yy,
                c,
            ) <==> ((yy == y && c == cell) || old(self).bit_set(yy, c))) by {
                let wi = yy * bw + word_of(c);
                lemma_row_index(bw as int, self.height as int, yy, word_of(c), self.bitmasks@.len() as int);
                if wi == word_idx {
                    assert(0 <= word_of(c) < bw as int) by (nonlinear_arith)
                        requires
                            0 <= c < 64 * bw && word_of(c) == c / 64,
                    ;
                    lemma_index_unique(yy, y as int, word_of(c), cell as int / 64, bw as int);
                    assert(yy == y && word_of(c) == cell as int / 64);
                    let nb: u64 = (63 - (cell as int % 64)) as u64;
                    let nc: u64 = (63 - (c % 64)) as u64;
                    lemma_mask_or(w0, nb, nc);
                    assert(cell_mask(cell as int) == 1u64 << nb);
                    assert(cell_mask(c) == 1u64 << nc);
                    if c % 64 == cell as int % 64 {
                        lemma_mod_div_eq(c, cell as int, 64);
                    }
                } else {
                    assert(self.bitmasks@[wi] == old(self).bitmasks@[wi]);
                }
            }
        }
    }
}

/// Build a vector of `n` zeros.
fn zero_vec_i64(n: usize) -> (v: Vec<i64>)
    ensures
        v@.len() == n,
        forall|i: int| 0 <= i < n ==> v@[i] == 0,
{
    let mut v: Vec<i64> = Vec::new();
    let mut i: usize = 0;
    while i < n
        invariant
            i <= n,
            v@.len() == i,
            forall|j: int| 0 <= j < i ==> v@[j] == 0,
        decreases n - i,
    {
        v.push(0);
        i = i + 1;
    }
    v
}

fn zero_vec_u64(n: usize) -> (v: Vec<u64>)
    ensures
        v@.len() == n,
        forall|i: int| 0 <= i < n ==> v@[i] == 0,
{
    let mut v: Vec<u64> = Vec::new();
    let mut i: usize = 0;
    while i < n
        invariant
            i <= n,
            v@.len() == i,
            forall|j: int| 0 <= j < i ==> v@[j] == 0,
        decreases n - i,
    {
        v.push(0);
        i = i + 1;
    }
    v
}

/// A set united with the empty set is itself.
proof fn lemma_union_empty(s: Set<(int, int)>)
    ensures
        s =~= s.union(Set::<(int, int)>::empty()),
{
}

/// Two rasterizers with the same coverage buffer agree on every coverage
/// view.
proof fn lemma_same_cov(a: Rasterizer, b: Rasterizer)
    requires
        a.coverage == b.coverage,
        a.cov_w == b.cov_w,
    ensures
        forall|yy: int| #[trigger] a.row_mass(yy) == b.row_mass(yy),
        forall|yy: int, xx: int| #[trigger] a.cov_at(yy, xx) == b.cov_at(yy, xx),
{
}

/// Two rasterizers with the same bitmask buffer agree on every bit.
proof fn lemma_same_bits(a: Rasterizer, b: Rasterizer)
    requires
        a.bitmasks == b.bitmasks,
        a.bitmasks_width == b.bitmasks_width,
    ensures
        forall|yy: int, c: int| #[trigger] a.bit_set(yy, c) == b.bit_set(yy, c),
{
}

/// Any coverage entry of a well-formed rasterizer is within the spent
/// budget.
proof fn lemma_entry_bound(r: Rasterizer, yy: int, xx: int)
    requires
        r.wf(),
        0 <= yy < r.height,
        0 <= xx < r.cov_w,
    ensures
        iabs(r.cov_at(yy, xx)) <= OPS_MAX * COV_ONE,
{
    assert(0 <= yy * r.cov_w && (yy + 1) * r.cov_w == yy * r.cov_w + r.cov_w && (yy + 1) * r.cov_w
        <= r.cov_w * r.height) by (nonlinear_arith)
        requires
            0 <= yy < r.height && 0 <= r.cov_w,
    ;
    let s = r.coverage@.subrange(yy * r.cov_w, (yy + 1) * r.cov_w);
    lemma_abs_sum_entry(s, xx);
    assert(s[xx] == r.coverage@[yy * r.cov_w + xx]);
    assert(r.row_mass(yy) <= r.ops@ * COV_ONE);
    assert(r.ops@ * COV_ONE <= OPS_MAX * COV_ONE) by (nonlinear_arith)
        requires
            r.ops@ <= OPS_MAX && COV_ONE >= 0,
    ;
}

/// Facts about the cell of a column inside the cell grid.
proof fn lemma_cell_split(x: int, covw: int, bw: int)
    by (nonlinear_arith)
    requires
        0 <= x < covw,
        covw <= 4 * 64 * bw,
        covw <= MAX_DIM + 3,
    ensures
        0 <= x / 4 < 64 * bw,
        4 * (x / 4) <= x <= 4 * (x / 4) + 3,
        x / 4 <= MAX_DIM,
{
}

/// One accepted delta preserves the rasterizer invariant: the budget grows by
/// one, the touched set and the bits gain the delta's (at most two) cells,
/// the row's mass grows by at most the delta's height, and the dirty bounds
/// widen to cover the cells.
proof fn lemma_delta_wf(pre: Rasterizer, post: Rasterizer, yi: int, c0: int, c1: int, habs: int)
    requires
        pre.wf(),
        pre.ops@ < OPS_MAX,
        post.same_dims(pre),
        post.coverage@.len() == pre.coverage@.len(),
        post.bitmasks@.len() == pre.bitmasks@.len(),
        post.ops@ == pre.ops@ + 1,
        post.touched@ == pre.touched@.insert((yi, c0)).insert((yi, c1)),
        0 <= yi < pre.height,
        0 <= habs <= COV_ONE,
        0 <= c0 <= c1,
        4 * c1 < pre.width,
        post.min_x <= 4 * c0 + 3,
        post.min_x <= pre.min_x,
        post.max_x >= 4 * c1,
        post.max_x >= pre.max_x,
        post.min_y <= yi,
        post.min_y <= pre.min_y,
        post.max_y >= yi,
        post.max_y >= pre.max_y,
        forall|yy: int|
            0 <= yy < pre.height && yy != yi ==> #[trigger] post.row_mass(yy) == pre.row_mass(yy),
        post.row_mass(yi) <= pre.row_mass(yi) + habs,
        forall|yy: int, xx: int|
            0 <= yy < pre.height && 0 <= xx < pre.cov_w && #[trigger] post.cov_at(yy, xx)
                != pre.cov_at(yy, xx) ==> (yy == yi && (cell_of(xx) == c0 || cell_of(xx) == c1)),
        forall|yy: int, c: int|
            0 <= yy < pre.height && 0 <= c < 64 * pre.bitmasks_width ==> (#[trigger] post.bit_set(
                yy,
                c,
            ) <==> ((yy == yi && (c == c0 || c == c1)) || pre.bit_set(yy, c))),
        forall|i: int|
            pre.cov_w * pre.height <= i < pre.coverage@.len() ==> #[trigger] post.coverage@[i]
                == pre.coverage@[i],
        forall|i: int|
            pre.bitmasks_width * pre.height <= i < pre.bitmasks@.len()
                ==> #[trigger] post.bitmasks@[i] == pre.bitmasks@[i],
    ensures
        post.wf(),
{
    assert forall|i: int|
        post.cov_w * post.height <= i < post.coverage@.len() implies #[trigger] post.coverage@[i]
        == 0 by {
        assert(post.coverage@[i] == pre.coverage@[i]);
    }
    assert forall|i: int|
        post.bitmasks_width * post.height <= i < post.bitmasks@.len()
            implies #[trigger] post.bitmasks@[i] == 0 by {
        assert(post.bitmasks@[i] == pre.bitmasks@[i]);
    }
    assert forall|yy: int| 0 <= yy < post.height implies #[trigger] post.row_mass(yy) <= post.ops@
        * COV_ONE by {
        assert((pre.ops@ + 1) * COV_ONE == pre.ops@ * COV_ONE + COV_ONE) by (nonlinear_arith);
        assert(pre.row_mass(yy) <= pre.ops@ * COV_ONE);
    }
    assert forall|yy: int, xx: int|
        0 <= yy < post.height && 0 <= xx < post.cov_w && #[trigger] post.cov_at(yy, xx)
            != 0 implies post.touched@.contains((yy, cell_of(xx))) by {
        if post.cov_at(yy, xx) == pre.cov_at(yy, xx) {
            assert(pre.touched@.contains((yy, cell_of(xx))));
        }
    }
    assert forall|yy: int, c: int|
        0 <= yy < post.height && 0 <= c < 64 * post.bitmasks_width implies (
    #[trigger] post.bit_set(yy, c) <==> post.touched@.contains((yy, c))) by {}
}

/// A rasterizer whose buffers are all zero, with nothing marked and no
/// budget spent, satisfies the invariant.
pub proof fn lemma_empty_wf(r: Rasterizer)
    requires
        r.dims_ok(),
        r.ops@ == 0,
        r.touched@ =~= Set::<(int, int)>::empty(),
        forall|i: int| 0 <= i < r.coverage@.len() ==> r.coverage@[i] == 0,
        forall|i: int| 0 <= i < r.bitmasks@.len() ==> r.bitmasks@[i] == 0,
    ensures
        r.wf(),
{
    assert forall|yy: int| 0 <= yy < r.height implies #[trigger] r.row_mass(yy) <= r.ops@
        * COV_ONE by {
        assert(0 <= yy * r.cov_w <= (yy + 1) * r.cov_w && (yy + 1) * r.cov_w <= r.cov_w
            * r.height) by (nonlinear_arith)
            requires
                0 <= yy < r.height && 0 <= r.cov_w,
        ;
        let s = r.coverage@.subrange(yy * r.cov_w, (yy + 1) * r.cov_w);
        assert forall|i: int| 0 <= i < s.len() implies s[i] == 0 by {
            assert(s[i] == r.coverage@[yy * r.cov_w + i]);
        }
        lemma_abs_sum_zero(s);
    }
    assert forall|yy: int, xx: int|
        0 <= yy < r.height && 0 <= xx < r.cov_w implies #[trigger] r.cov_at(yy, xx) == 0 by {
        lemma_row_index(r.cov_w as int, r.height as int, yy, xx, r.coverage@.len() as int);
    }
    assert forall|yy: int, c: int|
        0 <= yy < r.height && 0 <= c < 64 * r.bitmasks_width implies !(#[trigger] r.bit_set(
        yy,
        c,
    )) by {
        assert(0 <= c / 64 < r.bitmasks_width) by (nonlinear_arith)
            requires
                0 <= c < 64 * r.bitmasks_width,
        ;
        lemma_row_index(
            r.bitmasks_width as int,
            r.height as int,
            yy,
            c / 64,
            r.bitmasks@.len() as int,
        );
        assert(r.bitmasks@[yy * r.bitmasks_width + word_of(c)] == 0);
        let m = cell_mask(c);
        assert(0u64 & m == 0) by (bit_vector);
    }
}

/// The mass of an all-zero row is zero.
proof fn lemma_abs_sum_zero(s: Seq<i64>)
    requires
        forall|i: int| 0 <= i < s.len() ==> s[i] == 0,
    ensures
        abs_sum(s) == 0,
    decreases s.len(),
{
    if s.len() > 0 {
        lemma_abs_sum_zero(s.drop_last());
    }
}

/// Row-major indices stay inside the buffer.
proof fn lemma_row_index(w: int, h: int, y: int, x: int, len: int)
    by (nonlinear_arith)
    requires
        0 <= y < h,
        0 <= x < w,
        w * h <= len,
    ensures
        0 <= y * w + x < len,
        y * w + x < w * h,
{
}

/// Row-major indexing is injective.
proof fn lemma_index_unique(r1: int, r2: int, c1: int, c2: int, w: int)
    by (nonlinear_arith)
    requires
        w > 0,
        0 <= c1 < w,
        0 <= c2 < w,
        r1 * w + c1 == r2 * w + c2,
    ensures
        r1 == r2,
        c1 == c2,
{
}

/// Same residue and same quotient means the same number.
proof fn lemma_mod_div_eq(a: int, b: int, m: int)
    by (nonlinear_arith)
    requires
        m > 0,
        a >= 0,
        b >= 0,
        a % m == b % m,
        a / m == b / m,
    ensures
        a == b,
{
}

/// Setting one bit leaves exactly the other bits alone.
proof fn lemma_mask_or(w: u64, nb: u64, nc: u64)
    by (bit_vector)
    requires
        nb < 64,
        nc < 64,
    ensures
        ((w | (1u64 << nb)) & (1u64 << nc) != 0) <==> (nb == nc || (w & (1u64 << nc) != 0)),
{
}

/// The derived buffer shapes fit together: the rounded coverage width is
/// covered by the bitmask words.
proof fn lemma_dim_bounds(w: int)
    requires
        0 <= w <= MAX_DIM,
    ensures
        w <= ((w + 3) / 4) * 4 <= w + 3,
        ((w + 3) / 4) * 4 % 4 == 0,
        w <= 256 * ((w + 255) / 256),
        ((w + 3) / 4) * 4 <= 4 * 64 * ((w + 255) / 256),
        (w + 255) / 256 <= ((w + 3) / 4) * 4,
{
    let q4 = (w + 3) / 4;
    let q256 = (w + 255) / 256;
    vstd::arithmetic::div_mod::lemma_fundamental_div_mod(w + 3, 4);
    vstd::arithmetic::div_mod::lemma_fundamental_div_mod(w + 255, 256);
    assert(4 * q4 == w + 3 - ((w + 3) % 4));
    assert(256 * q256 == w + 255 - ((w + 255) % 256));
    assert(q4 * 4 % 4 == 0) by (nonlinear_arith);
    assert(q256 <= 4 * q4) by {
        if w == 0 {
            assert(q256 == 0);
        } else {
            assert(256 * q256 <= w + 255);
            assert(w + 255 < 256 * w + 256) by (nonlinear_arith)
                requires
                    w >= 1,
            ;
            assert(256 * q256 < 256 * (w + 1));
            assert(q256 < w + 1) by (nonlinear_arith)
                requires
                    256 * q256 < 256 * (w + 1),
            ;
            assert(w <= 4 * q4);
        }
    }
    assert(4 * q4 <= 256 * q256) by {
        assert(4 * q4 <= w + 3);
        assert(w <= 256 * q256);
        assert(256 * q256 % 4 == 0) by (nonlinear_arith);
        assert(4 * q4 % 4 == 0) by (nonlinear_arith);
        if 4 * q4 > 256 * q256 {
            assert(4 * q4 >= 256 * q256 + 4) by {
                lemma_mult_gap(q4, 64 * q256);
            }
        }
    }
}

/// Two distinct multiples of four differ by at least four.
proof fn lemma_mult_gap(a: int, b: int)
    by (nonlinear_arith)
    requires
        4 * a > 4 * b,
    ensures
        4 * a >= 4 * b + 4,
{
}

} // verus!
