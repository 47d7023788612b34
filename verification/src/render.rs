//! The render façade: a reusable renderer attached to a framebuffer.
//!
//! `fill_path` computes the path's device bounds, sizes the rasterizer to
//! them, flattens the path relative to the bounds' corner, accumulates the
//! segments and composites into the framebuffer at the right offset. The
//! contracts are pixel-exact end to end: every pixel inside the bounds
//! becomes `out_pixel` of the flattened segments' marks and running
//! coverage there, and every pixel outside them is untouched.

use vstd::prelude::*;

use crate::bbox;
use crate::bbox::spec_bbox;
use crate::bbox::spec_stroke_bbox;
use crate::bbox::Bbox;
use crate::color::Color;
use crate::composite::finish_touches;
use crate::covmath::prefix_sum;
use crate::flatten;
use crate::flatten::fill_segs;
use crate::flatten::Line;
use crate::geom::spec_clamp_coord;
use crate::geom::spec_compose;
use crate::geom::Affine;
use crate::line::line_contrib;
use crate::line::line_marks;
use crate::path::Path;
use crate::pipeline::out_pixel;
use crate::pipeline::sat_cov;
use crate::raster::cell_of;
use crate::raster::Rasterizer;
use crate::raster::LINE_OPS_MAX;
use crate::raster::MAX_DIM;
use crate::raster::OPS_MAX;

verus! {

/// What a list of segments adds, in total, to the coverage entry at
/// `(yy, xx)` of a `w` by `h` raster.
pub open spec fn segs_contrib(segs: Seq<Line>, w: int, h: int, yy: int, xx: int) -> int
    decreases segs.len(),
{
    if segs.len() == 0 {
        0
    } else {
        segs_contrib(segs.drop_last(), w, h, yy, xx) + line_contrib(
            segs.last().p0,
            segs.last().p1,
            w,
            h,
            yy,
            xx,
        )
    }
}

/// The cells a list of segments marks: the union of each segment's marks.
pub open spec fn segs_marks(segs: Seq<Line>, w: int, h: int) -> Set<(int, int)>
    decreases segs.len(),
{
    if segs.len() == 0 {
        Set::empty()
    } else {
        segs_marks(segs.drop_last(), w, h).union(
            line_marks(segs.last().p0, segs.last().p1, w, h),
        )
    }
}

/// The running coverage sum a list of segments accumulates on row `yy` up
/// to and including column `x`.
pub open spec fn segs_prefix(segs: Seq<Line>, w: int, h: int, yy: int, x: int) -> int
    decreases x + 1,
{
    if x < 0 {
        0
    } else {
        segs_prefix(segs, w, h, yy, x - 1) + segs_contrib(segs, w, h, yy, x)
    }
}

/// The transform a draw call flattens with: translation to the bounds'
/// corner composed with the combined transform.
pub open spec fn spec_offset_transform(bb: Bbox, t: Affine) -> Affine {
    spec_compose(
        Affine {
            a: 256i64,
            b: 0i64,
            c: 0i64,
            d: 256i64,
            tx: spec_clamp_coord(-(bb.x0 as int) * 256) as i64,
            ty: spec_clamp_coord(-(bb.y0 as int) * 256) as i64,
        },
        t,
    )
}

/// A clean rasterizer's coverage entries are all zero.
proof fn lemma_clean_cov_zero(r: Rasterizer, yy: int, xx: int)
    requires
        r.clean(),
        0 <= yy < r.height,
        0 <= xx < r.cov_w,
    ensures
        r.cov_at(yy, xx) == 0,
{
    assert(0 <= yy * r.cov_w + xx < r.cov_w * r.height) by (nonlinear_arith)
        requires
            0 <= yy < r.height && 0 <= xx < r.cov_w,
    ;
}

/// A rasterizer whose coverage equals a segment list's contribution has the
/// segment list's running sums as coverage prefixes.
proof fn lemma_prefix_bridge(r: Rasterizer, segs: Seq<Line>, yy: int, x: int)
    requires
        r.dims_ok(),
        0 <= yy < r.height,
        -1 <= x < r.cov_w,
        forall|xx: int|
            0 <= xx < r.cov_w ==> #[trigger] r.cov_at(yy, xx) == segs_contrib(
                segs,
                r.width as int,
                r.height as int,
                yy,
                xx,
            ),
    ensures
        r.cov_prefix(yy, x) == segs_prefix(segs, r.width as int, r.height as int, yy, x),
    decreases x + 1,
{
    let covw = r.cov_w as int;
    assert(0 <= yy * covw && (yy + 1) * covw == yy * covw + covw && (yy + 1) * covw <= covw
        * r.height) by (nonlinear_arith)
        requires
            0 <= yy < r.height && 0 <= covw,
    ;
    let row = r.coverage@.subrange(yy * covw, (yy + 1) * covw);
    if x < 0 {
        assert(prefix_sum(row, x + 1) == 0);
    } else {
        lemma_prefix_bridge(r, segs, yy, x - 1);
        assert(prefix_sum(row, x + 1) == prefix_sum(row, x) + row[x]);
        assert(row[x] == r.coverage@[yy * covw + x]);
        assert(r.cov_at(yy, x) == segs_contrib(segs, r.width as int, r.height as int, yy, x));
    }
}

impl Rasterizer {
    /// Accumulate a whole list of segments: every coverage entry changes by
    /// exactly the sum of the segments' contributions, and the marked cells
    /// grow by exactly the segments' marks.
    pub fn rasterize(&mut self, lines: &Vec<Line>)
        requires
            old(self).wf(),
            forall|k: int|
                0 <= k < lines@.len() ==> (#[trigger] lines@[k]).p0.wf() && lines@[k].p1.wf(),
            old(self).ops@ + lines@.len() * LINE_OPS_MAX <= OPS_MAX,
        ensures
            final(self).wf(),
            final(self).same_dims(*old(self)),
            final(self).ops@ <= old(self).ops@ + lines@.len() * LINE_OPS_MAX,
            old(self).touched@.subset_of(final(self).touched@),
            forall|yy: int, xx: int|
                0 <= yy < old(self).height && 0 <= xx < old(self).cov_w
                    ==> #[trigger] final(self).cov_at(yy, xx) == old(self).cov_at(yy, xx)
                    + segs_contrib(
                    lines@,
                    old(self).width as int,
                    old(self).height as int,
                    yy,
                    xx,
                ),
            final(self).touched@ =~= old(self).touched@.union(
                segs_marks(lines@, old(self).width as int, old(self).height as int),
            ),
    {
        let ghost pre = *self;
        let n = lines.len();
        let mut k: usize = 0;
        while k < n
            invariant
                0 <= k <= n,
                n == lines@.len(),
                forall|j: int|
                    0 <= j < lines@.len() ==> (#[trigger] lines@[j]).p0.wf() && lines@[j].p1.wf(),
                pre.wf(),
                pre.ops@ + n * LINE_OPS_MAX <= OPS_MAX,
                self.wf(),
                self.same_dims(pre),
                self.ops@ <= pre.ops@ + k * LINE_OPS_MAX,
                pre.touched@.subset_of(self.touched@),
                self.touched@ =~= pre.touched@.union(
                    segs_marks(lines@.take(k as int), pre.width as int, pre.height as int),
                ),
                forall|yy: int, xx: int|
                    0 <= yy < pre.height && 0 <= xx < pre.cov_w ==> #[trigger] self.cov_at(yy, xx)
                        == pre.cov_at(yy, xx) + segs_contrib(
                        lines@.take(k as int),
                        pre.width as int,
                        pre.height as int,
                        yy,
                        xx,
                    ),
            decreases n - k,
        {
            let seg = lines[k];
            proof {
                assert((k + 1) * LINE_OPS_MAX == k * LINE_OPS_MAX + LINE_OPS_MAX)
                    by (nonlinear_arith);
                assert(k * LINE_OPS_MAX + LINE_OPS_MAX <= n * LINE_OPS_MAX) by (nonlinear_arith)
                    requires
                        k + 1 <= n,
                ;
            }
            let ghost mid = *self;
            self.add_line(seg.p0, seg.p1);
            proof {
                assert(lines@.take(k + 1).drop_last() =~= lines@.take(k as int));
                assert(lines@.take(k + 1).last() == lines@[k as int]);
                assert(self.touched@ =~= pre.touched@.union(
                    segs_marks(lines@.take(k + 1), pre.width as int, pre.height as int),
                ));
                assert forall|yy: int, xx: int|
                    0 <= yy < pre.height && 0 <= xx < pre.cov_w implies #[trigger] self.cov_at(
                    yy,
                    xx,
                ) == pre.cov_at(yy, xx) + segs_contrib(
                    lines@.take(k + 1),
                    pre.width as int,
                    pre.height as int,
                    yy,
                    xx,
                ) by {
                    assert(self.cov_at(yy, xx) == mid.cov_at(yy, xx) + line_contrib(
                        seg.p0,
                        seg.p1,
                        pre.width as int,
                        pre.height as int,
                        yy,
                        xx,
                    ));
                }
            }
            k = k + 1;
        }
        proof {
            assert(lines@.take(n as int) =~= lines@);
        }
    }
}

/// A reusable renderer: scratch buffers waiting to be attached to a
/// framebuffer.
pub struct Renderer {
    pub lines: Vec<Line>,
    pub rasterizer: Rasterizer,
}

impl Renderer {
    pub open spec fn wf(self) -> bool {
        self.rasterizer.clean() && self.lines@.len() == 0
    }

    pub fn new() -> (r: Renderer)
        ensures
            r.wf(),
    {
        Renderer { lines: Vec::new(), rasterizer: Rasterizer::new() }
    }

    /// Attach the renderer to a framebuffer, taking ownership of the pixel
    /// data; [`RenderTarget::detach`] gives both back.
    pub fn attach(self, data: Vec<u32>, width: usize, height: usize) -> (t: RenderTarget)
        requires
            self.wf(),
            data.len() >= width * height,
            width <= MAX_DIM,
            height <= MAX_DIM,
            (width + 3) * height <= 0x1000_0000,
        ensures
            t.wf(),
            t.data@ == data@,
            t.width == width,
            t.height == height,
            t.transform == (crate::geom::Affine { a: 256i64, b: 0i64, c: 0i64, d: 256i64, tx: 0i64, ty: 0i64 }),
    {
        RenderTarget {
            data,
            width,
            height,
            transform: Affine::id(),
            saved: Vec::new(),
            lines: self.lines,
            rasterizer: self.rasterizer,
        }
    }
}

impl Default for Renderer {
    /// A fresh renderer, as [`Renderer::new`] builds it.
    fn default() -> (r: Renderer)
        ensures
            r.wf(),
    {
        Renderer::new()
    }
}

/// A framebuffer under rendering: pixel data, its dimensions, the current
/// transform with its stack, and the scratch rasterizer.
pub struct RenderTarget {
    pub data: Vec<u32>,
    pub width: usize,
    pub height: usize,
    pub transform: Affine,
    pub saved: Vec<Affine>,
    pub lines: Vec<Line>,
    pub rasterizer: Rasterizer,
}

impl RenderTarget {
    pub open spec fn wf(self) -> bool {
        &&& self.data@.len() >= self.width * self.height
        &&& self.width <= MAX_DIM
        &&& self.height <= MAX_DIM
        &&& (self.width + 3) * self.height <= 0x1000_0000
        &&& self.rasterizer.clean()
        &&& self.transform.wf()
        &&& self.lines@.len() == 0
        &&& forall|k: int| 0 <= k < self.saved@.len() ==> (#[trigger] self.saved@[k]).wf()
    }

    /// The full-framebuffer clip rectangle.
    pub open spec fn spec_clip(self) -> Bbox {
        Bbox { x0: 0, y0: 0, x1: self.width as i32, y1: self.height as i32 }
    }

    pub fn width(&self) -> (w: usize)
        ensures
            w == self.width,
    {
        self.width
    }

    pub fn height(&self) -> (h: usize)
        ensures
            h == self.height,
    {
        self.height
    }

    /// The framebuffer's pixels.
    pub fn data(&self) -> (d: &Vec<u32>)
        ensures
            d@ == self.data@,
    {
        &self.data
    }

    /// Read one pixel.
    pub fn pixel(&self, x: usize, y: usize) -> (p: u32)
        requires
            self.wf(),
            x < self.width,
            y < self.height,
        ensures
            p == self.data@[y * self.width + x],
    {
        proof {
            assert(0 <= y * self.width + x < self.width * self.height) by (nonlinear_arith)
                requires
                    0 <= y < self.height && 0 <= x < self.width,
            ;
        }
        let n = self.data.len();
        self.data[y * self.width + x]
    }

    /// Give the framebuffer and the renderer's scratch state back.
    pub fn detach(self) -> (r: (Renderer, Vec<u32>))
        requires
            self.wf(),
        ensures
            r.0.wf(),
            r.1@ == self.data@,
    {
        let RenderTarget { data, width: _, height: _, transform: _, saved: _, lines, rasterizer } =
            self;
        (Renderer { lines, rasterizer }, data)
    }

    /// Push the current transform and compose a new one onto it. Paired
    /// with [`RenderTarget::pop_transform`] this scopes a transform.
    pub fn push_transform(&mut self, t: Affine)
        requires
            old(self).wf(),
            t.wf(),
        ensures
            final(self).wf(),
            final(self).transform == spec_compose(old(self).transform, t),
            final(self).saved@ == old(self).saved@.push(old(self).transform),
            final(self).data@ == old(self).data@,
            final(self).width == old(self).width,
            final(self).height == old(self).height,
    {
        let cur = self.transform;
        self.saved.push(cur);
        self.transform = cur.compose(&t);
    }

    /// Restore the transform saved by the matching push; without one, keep
    /// the current transform.
    pub fn pop_transform(&mut self)
        requires
            old(self).wf(),
        ensures
            final(self).wf(),
            old(self).saved@.len() > 0 ==> final(self).transform == old(self).saved@.last()
                && final(self).saved@ == old(self).saved@.drop_last(),
            old(self).saved@.len() == 0 ==> *final(self) == *old(self),
            final(self).data@ == old(self).data@,
            final(self).width == old(self).width,
            final(self).height == old(self).height,
    {
        if self.saved.len() > 0 {
            match self.saved.pop() {
                Some(t) => {
                    self.transform = t;
                },
                None => {},
            }
        }
    }

    /// Rasterize the pending segments into the framebuffer region `bb`:
    /// each pixel of the region becomes exactly [`out_pixel`] of the
    /// segments' accumulated marks and coverage there; everything else is
    /// untouched.
    fn blit(&mut self, bb: Bbox, color: Color)
        requires
            old(self).data@.len() >= old(self).width * old(self).height,
            old(self).width <= MAX_DIM,
            old(self).height <= MAX_DIM,
            (old(self).width + 3) * old(self).height <= 0x1000_0000,
            old(self).rasterizer.clean(),
            old(self).transform.wf(),
            forall|k: int| 0 <= k < old(self).saved@.len() ==> (#[trigger] old(self).saved@[k]).wf(),
            0 <= bb.x0 < bb.x1 <= old(self).width,
            0 <= bb.y0 < bb.y1 <= old(self).height,
            old(self).lines@.len() <= 0x8_0000,
            forall|k: int|
                0 <= k < old(self).lines@.len() ==> (#[trigger] old(self).lines@[k]).p0.wf() && old(self).lines@[k].p1.wf(),
        ensures
            final(self).wf(),
            final(self).width == old(self).width,
            final(self).height == old(self).height,
            final(self).transform == old(self).transform,
            final(self).saved == old(self).saved,
            final(self).data@.len() == old(self).data@.len(),
            forall|yy: int, x: int|
                0 <= yy < bb.y1 - bb.y0 && 0 <= x < bb.x1 - bb.x0 ==> #[trigger] final(self).data@[bb.y0 as int * old(self).width + bb.x0 as int + yy * old(self).width
                    + x] as int == out_pixel(
                    segs_marks(old(self).lines@, bb.x1 - bb.x0, bb.y1 - bb.y0).contains(
                        (yy, cell_of(x)),
                    ),
                    sat_cov(segs_prefix(old(self).lines@, bb.x1 - bb.x0, bb.y1 - bb.y0, yy, x)),
                    color,
                    old(self).data@[bb.y0 as int * old(self).width + bb.x0 as int + yy * old(self).width + x] as int,
                ),
            forall|i: int|
                0 <= i < old(self).data@.len() && !finish_touches(
                    bb.y0 as int * old(self).width + bb.x0 as int,
                    old(self).width as int,
                    bb.x1 - bb.x0,
                    bb.y1 - bb.y0,
                    i,
                ) ==> final(self).data@[i] == old(self).data@[i],
    {
        let pw = (bb.x1 - bb.x0) as usize;
        let ph = (bb.y1 - bb.y0) as usize;
        proof {
            assert((pw + 3) * ph <= (self.width + 3) * self.height) by (nonlinear_arith)
                requires
                    pw <= self.width && ph <= self.height && 0 <= pw && 0 <= ph,
            ;
        }
        self.rasterizer.set_size(pw, ph);
        let mut lines: Vec<Line> = Vec::new();
        core::mem::swap(&mut lines, &mut self.lines);
        proof {
            assert(lines@.len() * LINE_OPS_MAX <= 0x8_0000 * LINE_OPS_MAX) by (nonlinear_arith)
                requires
                    lines@.len() <= 0x8_0000,
            ;
        }
        let ghost clean_r = self.rasterizer;
        self.rasterizer.rasterize(&lines);
        let ghost filled = self.rasterizer;
        proof {
            // From a clean rasterizer, the coverage is exactly the segments'
            // contribution and the marked cells are exactly their marks.
            assert forall|yy: int, xx: int|
                0 <= yy < ph && 0 <= xx < filled.cov_w implies #[trigger] filled.cov_at(yy, xx)
                == segs_contrib(lines@, pw as int, ph as int, yy, xx) by {
                lemma_clean_cov_zero(clean_r, yy, xx);
            }
            assert(filled.touched@ =~= segs_marks(lines@, pw as int, ph as int)) by {
                assert(clean_r.touched@ =~= Set::<(int, int)>::empty());
            }
        }
        proof {
            assert(0 <= bb.y0 as int * self.width as int && bb.y0 as int * self.width as int
                + bb.x0 as int <= self.width * self.height && self.width * self.height <= (
            self.width + 3) * self.height) by (nonlinear_arith)
                requires
                    0 <= bb.y0 && bb.y0 < self.height && 0 <= bb.x0 && bb.x0 as int <= self.width,
            ;
        }
        let offset = (bb.y0 as usize) * self.width + (bb.x0 as usize);
        proof {
            assert(offset + (ph - 1) * self.width as int + pw <= self.width * self.height)
                by (nonlinear_arith)
                requires
                    offset == bb.y0 as int * self.width + bb.x0 as int && pw == bb.x1 - bb.x0 && ph
                        == bb.y1 - bb.y0 && 0 <= bb.x0 && bb.x0 as int + pw <= self.width && 0
                        <= bb.y0 && bb.y0 as int + ph <= self.height && ph >= 1,
            ;
        }
        let mut data: Vec<u32> = Vec::new();
        core::mem::swap(&mut data, &mut self.data);
        let ghost data0 = data@;
        let stride = self.width;
        self.rasterizer.finish(color, &mut data, offset, stride);
        core::mem::swap(&mut data, &mut self.data);
        proof {
            // Rewrite the compositor's per-pixel formula over the segments.
            assert forall|yy: int, x: int|
                0 <= yy < bb.y1 - bb.y0 && 0 <= x < bb.x1 - bb.x0 implies #[trigger] self.data@[
                bb.y0 as int * stride + bb.x0 as int + yy * stride + x] as int == out_pixel(
                segs_marks(lines@, bb.x1 - bb.x0, bb.y1 - bb.y0).contains((yy, cell_of(x))),
                sat_cov(segs_prefix(lines@, bb.x1 - bb.x0, bb.y1 - bb.y0, yy, x)),
                color,
                data0[bb.y0 as int * stride + bb.x0 as int + yy * stride + x] as int,
            ) by {
                assert(offset + yy * stride + x < offset + (ph - 1) * stride + pw)
                    by (nonlinear_arith)
                    requires
                        0 <= yy && yy <= ph - 1 && 0 <= x && x < pw && stride >= pw,
                ;
                assert(self.data@[offset + yy * stride + x] as int == out_pixel(
                    filled.bit_set(yy, cell_of(x)),
                    sat_cov(filled.cov_prefix(yy, x)),
                    color,
                    data0[offset + yy * stride + x] as int,
                ));
                assert(0 <= cell_of(x) < 64 * filled.bitmasks_width) by (nonlinear_arith)
                    requires
                        0 <= x < filled.width && filled.width <= filled.cov_w && filled.cov_w <= 4
                            * 64 * filled.bitmasks_width && cell_of(x) == x / 4,
                ;
                assert(filled.bit_set(yy, cell_of(x)) == filled.touched@.contains(
                    (yy, cell_of(x)),
                ));
                lemma_prefix_bridge(filled, lines@, yy, x);
            }
        }
    }

    /// Fill a path, transformed by the current transform composed with
    /// `transform`, with `color`.
    ///
    /// The contract is pixel-exact: inside the path's clamped device
    /// bounds, every pixel becomes [`out_pixel`] of the flattened outline's
    /// accumulated cell marks and saturated running coverage over the old
    /// pixel; outside them nothing changes.
    pub fn fill_path(&mut self, path: &Path, transform: Affine, color: Color)
        requires
            old(self).wf(),
            path.wf(),
            transform.wf(),
            path.view().len() <= 0x1_0000,
        ensures
            final(self).wf(),
            final(self).width == old(self).width,
            final(self).height == old(self).height,
            final(self).transform == old(self).transform,
            final(self).saved == old(self).saved,
            final(self).data@.len() == old(self).data@.len(),
            ({
                let bb = spec_bbox(
                    *path,
                    spec_compose(old(self).transform, transform),
                    old(self).spec_clip(),
                    0,
                    0,
                );
                let segs = fill_segs(
                    path.view(),
                    spec_offset_transform(bb, spec_compose(old(self).transform, transform)),
                );
                &&& ((bb.x1 <= bb.x0 || bb.y1 <= bb.y0) ==> final(self).data@ == old(self).data@)
                &&& ((bb.x0 < bb.x1 && bb.y0 < bb.y1) ==> forall|yy: int, x: int|
                    0 <= yy < bb.y1 - bb.y0 && 0 <= x < bb.x1 - bb.x0 ==> #[trigger] final(self).data@[bb.y0 as int * old(self).width + bb.x0 as int + yy * old(self).width
                        + x] as int == out_pixel(
                        segs_marks(segs, bb.x1 - bb.x0, bb.y1 - bb.y0).contains((yy, cell_of(x))),
                        sat_cov(segs_prefix(segs, bb.x1 - bb.x0, bb.y1 - bb.y0, yy, x)),
                        color,
                        old(self).data@[bb.y0 as int * old(self).width + bb.x0 as int + yy * old(self).width + x] as int,
                    ))
                &&& forall|i: int|
                    0 <= i < old(self).data@.len() && !finish_touches(
                        bb.y0 as int * old(self).width + bb.x0 as int,
                        old(self).width as int,
                        bb.x1 - bb.x0,
                        bb.y1 - bb.y0,
                        i,
                    ) ==> final(self).data@[i] == old(self).data@[i]
            }),
    {
        let clip = Bbox { x0: 0, y0: 0, x1: self.width as i32, y1: self.height as i32 };
        let combined = self.transform.compose(&transform);
        let bb = bbox::fill(path, combined, clip);
        if bb.is_empty() {
            return ;
        }
        let off_t = Affine::translate(-(bb.x0 as i64) * 256, -(bb.y0 as i64) * 256).compose(
            &combined,
        );
        proof {
            assert(off_t == spec_offset_transform(bb, combined));
        }
        flatten::fill(path, off_t, &mut self.lines);
        proof {
            flatten::lemma_flat_len(path.view(), off_t);
            assert(self.lines@ =~= fill_segs(path.view(), off_t));
        }
        self.blit(bb, color);
    }

    /// Stroke a path with the given fixed-point width: each segment becomes
    /// a closed quad half a width to each side in the path's own space,
    /// with butt caps, transformed to device space.
    ///
    /// Pixel-exact like [`RenderTarget::fill_path`], over the stroke
    /// outline's segments.
    pub fn stroke_path(&mut self, path: &Path, width: i64, transform: Affine, color: Color)
        requires
            old(self).wf(),
            path.wf(),
            transform.wf(),
            0 <= width <= crate::MAX_COORD,
            path.view().len() <= 0x1_0000,
        ensures
            final(self).wf(),
            final(self).width == old(self).width,
            final(self).height == old(self).height,
            final(self).transform == old(self).transform,
            final(self).saved == old(self).saved,
            final(self).data@.len() == old(self).data@.len(),
            ({
                let bb = spec_stroke_bbox(
                    *path,
                    width as int,
                    spec_compose(old(self).transform, transform),
                    old(self).spec_clip(),
                );
                let segs = crate::flatten::stroke_segs(
                    crate::flatten::raw_acc(path.view()).segs,
                    width as int,
                    spec_offset_transform(bb, spec_compose(old(self).transform, transform)),
                );
                &&& ((bb.x1 <= bb.x0 || bb.y1 <= bb.y0) ==> final(self).data@ == old(self).data@)
                &&& ((bb.x0 < bb.x1 && bb.y0 < bb.y1) ==> forall|yy: int, x: int|
                    0 <= yy < bb.y1 - bb.y0 && 0 <= x < bb.x1 - bb.x0 ==> #[trigger] final(self).data@[bb.y0 as int * old(self).width + bb.x0 as int + yy * old(self).width
                        + x] as int == out_pixel(
                        segs_marks(segs, bb.x1 - bb.x0, bb.y1 - bb.y0).contains((yy, cell_of(x))),
                        sat_cov(segs_prefix(segs, bb.x1 - bb.x0, bb.y1 - bb.y0, yy, x)),
                        color,
                        old(self).data@[bb.y0 as int * old(self).width + bb.x0 as int + yy * old(self).width + x] as int,
                    ))
                &&& forall|i: int|
                    0 <= i < old(self).data@.len() && !finish_touches(
                        bb.y0 as int * old(self).width + bb.x0 as int,
                        old(self).width as int,
                        bb.x1 - bb.x0,
                        bb.y1 - bb.y0,
                        i,
                    ) ==> final(self).data@[i] == old(self).data@[i]
            }),
    {
        let clip = Bbox { x0: 0, y0: 0, x1: self.width as i32, y1: self.height as i32 };
        let combined = self.transform.compose(&transform);
        let bb = bbox::stroke(path, width, combined, clip);
        if bb.is_empty() {
            return ;
        }
        let off_t = Affine::translate(-(bb.x0 as i64) * 256, -(bb.y0 as i64) * 256).compose(
            &combined,
        );
        proof {
            assert(off_t == spec_offset_transform(bb, combined));
        }
        flatten::stroke(path, width, off_t, &mut self.lines);
        proof {
            flatten::lemma_raw_len(path.view());
            flatten::lemma_stroke_len(
                crate::flatten::raw_acc(path.view()).segs,
                width as int,
                off_t,
            );
            assert(self.lines@ =~= crate::flatten::stroke_segs(
                crate::flatten::raw_acc(path.view()).segs,
                width as int,
                off_t,
            ));
        }
        self.blit(bb, color);
    }

    /// Fill the framebuffer's pixels with one color. Slack beyond the
    /// logical `width * height` pixels, if the attached buffer was longer,
    /// is left alone.
    pub fn clear(&mut self, color: Color)
        requires
            old(self).wf(),
        ensures
            final(self).wf(),
            final(self).data@.len() == old(self).data@.len(),
            forall|i: int|
                0 <= i < old(self).width * old(self).height ==> #[trigger] final(self).data@[
                    i] as int == color.spec_packed(),
            forall|i: int|
                old(self).width * old(self).height <= i < old(self).data@.len() ==> #[trigger] final(self).data@[i] == old(self).data@[i],
            final(self).width == old(self).width,
            final(self).height == old(self).height,
            final(self).transform == old(self).transform,
    {
        let p = color.packed();
        proof {
            assert(self.width * self.height <= (self.width + 3) * self.height)
                by (nonlinear_arith)
                requires
                    0 <= self.width && 0 <= self.height,
            ;
        }
        let n = self.width * self.height;
        let mut i: usize = 0;
        while i < n
            invariant
                0 <= i <= n,
                n == self.width * self.height,
                n <= self.data.len(),
                p as int == color.spec_packed(),
                n == self.width * self.height,
                forall|j: int| 0 <= j < i ==> #[trigger] self.data@[j] == p,
                forall|j: int| n <= j < self.data@.len() ==> #[trigger] self.data@[j] == old(self).data@[j],
                self.width == old(self).width,
                self.height == old(self).height,
                self.transform == old(self).transform,
                self.saved == old(self).saved,
                self.lines == old(self).lines,
                self.rasterizer == old(self).rasterizer,
                self.data@.len() == old(self).data@.len(),
                old(self).wf(),
            decreases n - i,
        {
            self.data[i] = p;
            i = i + 1;
        }
    }
}

} // verus!
