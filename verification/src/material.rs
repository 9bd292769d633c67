//! The stock that a simulated job is cut out of.
use vstd::arithmetic::div_mod::{lemma_fundamental_div_mod, lemma_fundamental_div_mod_converse};
use vstd::prelude::*;
use crate::arith::{
    minus, over, plus, single1, single_of, times, to_unsigned, Arithmetic, Op, Scalar, HALF, ONE,
};
use crate::grbl::state::{Segment, Vec3};

verus! {

/// The part of the tool's diameter that a cell is wide, 0.35.
pub const CELL_PART: u32 = 0x3eb3_3333;

/// The least width of a cell, 0.08.
pub const CELL_MIN: u32 = 0x3da3_d70a;

/// The largest width of a cell, 0.6.
pub const CELL_MAX: u32 = 0x3f19_999a;

/// The height of untouched stock, 0.02.
pub const STOCK_TOP: u32 = 0x3ca3_d70a;

/// The least depth of the stock's floor, -0.1.
pub const FLOOR: u32 = 0xbdcc_cccd;

/// The square of a length that counts as none, 0.00000001.
pub const NO_LENGTH: u32 = 0x322b_cc77;

/// The heights of the stock's cells, row by row.
pub struct MaterialField {
    pub bbox_min_x: Scalar,
    pub bbox_min_y: Scalar,
    /// The width of a cell.
    pub res: Scalar,
    pub nx: usize,
    pub ny: usize,
    pub z_top: Scalar,
    pub z_floor: Scalar,
    pub heights: Vec<Scalar>,
    /// How many segments have been cut.
    pub carved_up_to: usize,
    pub endmill_diameter: Scalar,
    pub version: u32,
}

/// The width of a cell.
pub open spec fn spec_resolution<A: Arithmetic>(a: &A, endmill_diameter: Scalar) -> Scalar {
    times(a, endmill_diameter, Scalar { bits: CELL_PART }).clamped(
        Scalar { bits: CELL_MIN },
        Scalar { bits: CELL_MAX },
    )
}

#[verifier::when_used_as_spec(spec_resolution)]
pub fn resolution<A: Arithmetic>(a: &A, endmill_diameter: Scalar) -> (r: Scalar)
    requires
        a.lawful(),
    ensures
        r == spec_resolution(a, endmill_diameter),
{
    times(a, endmill_diameter, Scalar { bits: CELL_PART }).clamp(
        Scalar { bits: CELL_MIN },
        Scalar { bits: CELL_MAX },
    )
}

/// How many cells lie between `lo` and `hi` with the margin of a tool around, at least two.
pub open spec fn spec_cells<A: Arithmetic>(
    a: &A,
    lo: Scalar,
    hi: Scalar,
    endmill_diameter: Scalar,
) -> usize {
    let pad = endmill_diameter.greater(Scalar { bits: ONE });
    let n = to_unsigned(
        a,
        single1(
            a,
            Op::Ceil,
            over(
                a,
                minus(a, plus(a, hi, pad), minus(a, lo, pad)),
                resolution(a, endmill_diameter),
            ),
        ),
        usize::MAX as u64,
    ) as usize;
    if n < 2 {
        2
    } else {
        n
    }
}

#[verifier::when_used_as_spec(spec_cells)]
pub fn cells<A: Arithmetic>(a: &A, lo: Scalar, hi: Scalar, endmill_diameter: Scalar) -> (n: usize)
    requires
        a.lawful(),
    ensures
        n == spec_cells(a, lo, hi, endmill_diameter),
        n >= 2,
{
    let pad = endmill_diameter.max(Scalar { bits: ONE });
    let n: usize = to_unsigned(
        a,
        single1(
            a,
            Op::Ceil,
            over(
                a,
                minus(a, plus(a, hi, pad), minus(a, lo, pad)),
                resolution(a, endmill_diameter),
            ),
        ),
        usize::MAX as u64,
    ) as usize;
    if n < 2 {
        2
    } else {
        n
    }
}

/// The version that follows `v`.
pub open spec fn after_version(v: u32) -> u32 {
    if v == u32::MAX {
        0
    } else {
        (v + 1) as u32
    }
}

fn bump_version(v: u32) -> (next: u32)
    ensures
        next == after_version(v),
{
    if v == u32::MAX {
        0
    } else {
        v + 1
    }
}

/// The height to which a segment cuts the cell in column `ix` and row `iy`, if the tool passes
/// over its middle: that of the nearest point of the segment's path in the plane.
pub open spec fn cut_depth<A: Arithmetic>(
    a: &A,
    f: &MaterialField,
    seg: Segment,
    ix: int,
    iy: int,
) -> Option<Scalar> {
    let radius = times(a, f.endmill_diameter, Scalar { bits: HALF });
    if !window(a, f, seg, radius).holds(ix, iy) {
        None
    } else {
        let cx = middle(a, f.bbox_min_x, f.res, ix as usize);
        let cy = middle(a, f.bbox_min_y, f.res, iy as usize);
        let (d2, z) = approach(a, seg, cx, cy);
        if times(a, radius, radius).below(d2) {
            None
        } else {
            Some(z)
        }
    }
}

/// The middle of a cell.
pub open spec fn spec_middle<A: Arithmetic>(a: &A, min: Scalar, res: Scalar, i: usize) -> Scalar {
    plus(a, min, times(a, plus(a, single_of(a, i as u64), Scalar { bits: HALF }), res))
}

#[verifier::when_used_as_spec(spec_middle)]
pub fn middle<A: Arithmetic>(a: &A, min: Scalar, res: Scalar, i: usize) -> (r: Scalar)
    requires
        a.lawful(),
    ensures
        r == spec_middle(a, min, res, i),
{
    plus(a, min, times(a, plus(a, single_of(a, i as u64), Scalar { bits: HALF }), res))
}

/// The square of the distance from `(cx, cy)` to the nearest point of a segment, and the height
/// there.
pub open spec fn spec_approach<A: Arithmetic>(a: &A, seg: Segment, cx: Scalar, cy: Scalar) -> (
    Scalar,
    Scalar,
) {
    let dx = minus(a, seg.end.x, seg.start.x);
    let dy = minus(a, seg.end.y, seg.start.y);
    let len2 = plus(a, times(a, dx, dx), times(a, dy, dy));
    let t = if len2.below(Scalar { bits: NO_LENGTH }) {
        Scalar { bits: 0 }
    } else {
        over(
            a,
            plus(
                a,
                times(a, minus(a, cx, seg.start.x), dx),
                times(a, minus(a, cy, seg.start.y), dy),
            ),
            len2,
        ).clamped(Scalar { bits: 0 }, Scalar { bits: ONE })
    };
    let ddx = minus(a, cx, plus(a, seg.start.x, times(a, t, dx)));
    let ddy = minus(a, cy, plus(a, seg.start.y, times(a, t, dy)));
    (
        plus(a, times(a, ddx, ddx), times(a, ddy, ddy)),
        plus(a, seg.start.z, times(a, t, minus(a, seg.end.z, seg.start.z))),
    )
}

#[verifier::when_used_as_spec(spec_approach)]
pub fn approach<A: Arithmetic>(a: &A, seg: Segment, cx: Scalar, cy: Scalar) -> (r: (
    Scalar,
    Scalar,
))
    requires
        a.lawful(),
    ensures
        r == spec_approach(a, seg, cx, cy),
{
    let dx = minus(a, seg.end.x, seg.start.x);
    let dy = minus(a, seg.end.y, seg.start.y);
    let len2 = plus(a, times(a, dx, dx), times(a, dy, dy));
    let t = if len2.lt(Scalar { bits: NO_LENGTH }) {
        Scalar { bits: 0 }
    } else {
        over(
            a,
            plus(
                a,
                times(a, minus(a, cx, seg.start.x), dx),
                times(a, minus(a, cy, seg.start.y), dy),
            ),
            len2,
        ).clamp(Scalar { bits: 0 }, Scalar { bits: ONE })
    };
    let ddx = minus(a, cx, plus(a, seg.start.x, times(a, t, dx)));
    let ddy = minus(a, cy, plus(a, seg.start.y, times(a, t, dy)));
    (
        plus(a, times(a, ddx, ddx), times(a, ddy, ddy)),
        plus(a, seg.start.z, times(a, t, minus(a, seg.end.z, seg.start.z))),
    )
}

/// A rectangle of cells, without its last column and row.
#[derive(Clone, Copy, Debug)]
pub struct Window {
    pub ix0: usize,
    pub ix1: usize,
    pub iy0: usize,
    pub iy1: usize,
}

impl Window {
    pub open spec fn holds(self, ix: int, iy: int) -> bool {
        self.ix0 <= ix < self.ix1 && self.iy0 <= iy < self.iy1
    }
}

/// The first cell from `x` on.
pub open spec fn spec_first_cell<A: Arithmetic>(
    a: &A,
    x: Scalar,
    min: Scalar,
    res: Scalar,
    n: usize,
) -> usize {
    to_unsigned(
        a,
        single1(a, Op::Floor, over(a, minus(a, x, min), res)).greater(Scalar { bits: 0 }),
        n as u64,
    ) as usize
}

#[verifier::when_used_as_spec(spec_first_cell)]
pub fn first_cell<A: Arithmetic>(a: &A, x: Scalar, min: Scalar, res: Scalar, n: usize) -> (i: usize)
    requires
        a.lawful(),
    ensures
        i == spec_first_cell(a, x, min, res, n),
        i <= n,
{
    to_unsigned(
        a,
        single1(a, Op::Floor, over(a, minus(a, x, min), res)).max(Scalar { bits: 0 }),
        n as u64,
    ) as usize
}

/// The cell behind the last one before `x`.
pub open spec fn spec_end_cell<A: Arithmetic>(
    a: &A,
    x: Scalar,
    min: Scalar,
    res: Scalar,
    n: usize,
) -> usize {
    to_unsigned(a, single1(a, Op::Ceil, over(a, minus(a, x, min), res)), n as u64) as usize
}

#[verifier::when_used_as_spec(spec_end_cell)]
pub fn end_cell<A: Arithmetic>(a: &A, x: Scalar, min: Scalar, res: Scalar, n: usize) -> (i: usize)
    requires
        a.lawful(),
    ensures
        i == spec_end_cell(a, x, min, res, n),
        i <= n,
{
    to_unsigned(a, single1(a, Op::Ceil, over(a, minus(a, x, min), res)), n as u64) as usize
}

/// The cells that a tool on the way along a segment may reach: none for a rapid move or one above
/// the stock.
pub open spec fn window<A: Arithmetic>(
    a: &A,
    f: &MaterialField,
    seg: Segment,
    radius: Scalar,
) -> Window {
    if seg.rapid || (f.z_top.at_most(seg.start.z) && f.z_top.at_most(seg.end.z)) {
        Window { ix0: 0, ix1: 0, iy0: 0, iy1: 0 }
    } else {
        Window {
            ix0: first_cell(
                a,
                minus(a, seg.start.x.lesser(seg.end.x), radius),
                f.bbox_min_x,
                f.res,
                f.nx,
            ),
            ix1: end_cell(
                a,
                plus(a, seg.start.x.greater(seg.end.x), radius),
                f.bbox_min_x,
                f.res,
                f.nx,
            ),
            iy0: first_cell(
                a,
                minus(a, seg.start.y.lesser(seg.end.y), radius),
                f.bbox_min_y,
                f.res,
                f.ny,
            ),
            iy1: end_cell(
                a,
                plus(a, seg.start.y.greater(seg.end.y), radius),
                f.bbox_min_y,
                f.res,
                f.ny,
            ),
        }
    }
}

/// A cell's height after a segment: it is only ever lowered.
pub open spec fn height_after<A: Arithmetic>(
    a: &A,
    f: &MaterialField,
    seg: Segment,
    k: int,
    h: Scalar,
) -> Scalar {
    match cut_depth(a, f, seg, k % (f.nx as int), k / (f.nx as int)) {
        Some(z) => if z.below(h) {
            z
        } else {
            h
        },
        None => h,
    }
}

/// The heights after a segment.
pub open spec fn carved<A: Arithmetic>(
    a: &A,
    f: &MaterialField,
    heights: Seq<Scalar>,
    seg: Segment,
) -> Seq<Scalar> {
    Seq::new(heights.len(), |k: int| height_after(a, f, seg, k, heights[k]))
}

/// The heights after segments, one after the other.
pub open spec fn carved_all<A: Arithmetic>(
    a: &A,
    f: &MaterialField,
    heights: Seq<Scalar>,
    segs: Seq<Segment>,
) -> Seq<Scalar>
    decreases segs.len(),
{
    if segs.len() == 0 {
        heights
    } else {
        carved(a, f, carved_all(a, f, heights, segs.drop_last()), segs.last())
    }
}

/// Untouched stock.
pub open spec fn flat(f: &MaterialField) -> Seq<Scalar> {
    Seq::new((f.nx * f.ny) as nat, |k: int| f.z_top)
}

/// How far a path has been cut out of the stock.
#[verifier::ext_equal]
pub struct Cut {
    pub heights: Seq<Scalar>,
    /// How many segments have been cut.
    pub carved_up_to: usize,
    pub version: u32,
}

/// Cutting the first `target` segments: those that are cut already stay, unless there are more of
/// them. Then the stock is made untouched first. The version follows each change.
pub open spec fn cut_to<A: Arithmetic>(
    a: &A,
    f: &MaterialField,
    c: Cut,
    segs: Seq<Segment>,
    target: usize,
) -> Cut {
    let goal = if target < segs.len() {
        target as int
    } else {
        segs.len() as int
    };
    let start = if goal < c.carved_up_to {
        Cut { heights: flat(f), carved_up_to: 0, version: after_version(c.version) }
    } else {
        c
    };
    if goal == start.carved_up_to {
        start
    } else {
        Cut {
            heights: carved_all(
                a,
                f,
                start.heights,
                segs.subrange(start.carved_up_to as int, goal),
            ),
            carved_up_to: goal as usize,
            version: after_version(start.version),
        }
    }
}

/// Cutting to one target after the other.
pub open spec fn cut_to_all<A: Arithmetic>(
    a: &A,
    f: &MaterialField,
    c: Cut,
    segs: Seq<Segment>,
    targets: Seq<usize>,
) -> Cut
    decreases targets.len(),
{
    if targets.len() == 0 {
        c
    } else {
        cut_to(a, f, cut_to_all(a, f, c, segs, targets.drop_last()), segs, targets.last())
    }
}

/// Stock that nothing has been cut out of yet.
pub open spec fn uncut(f: &MaterialField, version: u32) -> Cut {
    Cut { heights: flat(f), carved_up_to: 0, version }
}

impl MaterialField {
    /// What has been cut out of the stock.
    pub open spec fn cut(&self) -> Cut {
        Cut {
            heights: self.heights@,
            carved_up_to: self.carved_up_to,
            version: self.version,
        }
    }

    /// There is a height for every cell.
    pub open spec fn wf(&self) -> bool {
        self.nx > 0 && self.heights@.len() == self.nx * self.ny
    }

    /// The same stock, whatever has been cut out of it.
    pub open spec fn same_stock(&self, other: &MaterialField) -> bool {
        *self == (MaterialField {
            heights: self.heights,
            carved_up_to: self.carved_up_to,
            version: self.version,
            ..*other
        })
    }

    /// Untouched stock around a job with these bounds.
    pub open spec fn is_new<A: Arithmetic>(
        &self,
        a: &A,
        bmin: Vec3,
        bmax: Vec3,
        endmill_diameter: Scalar,
    ) -> bool {
        &&& self.wf()
        &&& self.heights@ == flat(self)
        &&& *self == (MaterialField {
            bbox_min_x: minus(a, bmin.x, endmill_diameter.greater(Scalar { bits: ONE })),
            bbox_min_y: minus(a, bmin.y, endmill_diameter.greater(Scalar { bits: ONE })),
            res: resolution(a, endmill_diameter),
            nx: cells(a, bmin.x, bmax.x, endmill_diameter),
            ny: cells(a, bmin.y, bmax.y, endmill_diameter),
            z_top: Scalar { bits: STOCK_TOP },
            z_floor: bmin.z.lesser(Scalar { bits: FLOOR }),
            heights: self.heights,
            carved_up_to: 0,
            endmill_diameter,
            version: 1,
        })
    }

    /// What `before` becomes when the first `target` segments are cut.
    pub open spec fn follows<A: Arithmetic>(
        &self,
        a: &A,
        before: &MaterialField,
        segs: Seq<Segment>,
        target: usize,
    ) -> bool {
        &&& self.wf()
        &&& self.same_stock(before)
        &&& self.cut() == cut_to(a, before, before.cut(), segs, target)
    }

    /// The first segments of the path are cut, and nothing else.
    pub open spec fn shows<A: Arithmetic>(&self, a: &A, segs: Seq<Segment>) -> bool {
        &&& self.carved_up_to <= segs.len()
        &&& self.heights@ == carved_all(a, self, flat(self), segs.take(self.carved_up_to as int))
    }

    /// Whether the cells of the stock for a job with these bounds can be counted.
    pub fn can_hold<A: Arithmetic>(a: &A, bmin: Vec3, bmax: Vec3, endmill_diameter: Scalar) -> (yes:
        bool)
        requires
            a.lawful(),
        ensures
            yes == (cells(a, bmin.x, bmax.x, endmill_diameter) * cells(
                a,
                bmin.y,
                bmax.y,
                endmill_diameter,
            ) <= usize::MAX),
    {
        let nx = cells(a, bmin.x, bmax.x, endmill_diameter);
        let ny = cells(a, bmin.y, bmax.y, endmill_diameter);
        proof {
            lemma_fundamental_div_mod(usize::MAX as int, ny as int);
            let q = usize::MAX as int / ny as int;
            assert(nx <= q ==> nx * ny <= usize::MAX) by (nonlinear_arith)
                requires
                    ny * q <= usize::MAX,
                    ny >= 2,
            ;
            assert(nx > q ==> nx * ny > usize::MAX) by (nonlinear_arith)
                requires
                    ny * q + ny > usize::MAX,
                    ny >= 2,
            ;
        }
        nx <= usize::MAX / ny
    }

    /// Untouched stock around a job with these bounds.
    pub fn new<A: Arithmetic>(a: &A, bmin: Vec3, bmax: Vec3, endmill_diameter: Scalar) -> (f:
        MaterialField)
        requires
            a.lawful(),
            cells(a, bmin.x, bmax.x, endmill_diameter) * cells(
                a,
                bmin.y,
                bmax.y,
                endmill_diameter,
            ) <= usize::MAX,
        ensures
            f.is_new(a, bmin, bmax, endmill_diameter),
    {
        let pad = endmill_diameter.max(Scalar { bits: ONE });
        let nx = cells(a, bmin.x, bmax.x, endmill_diameter);
        let ny = cells(a, bmin.y, bmax.y, endmill_diameter);
        let z_top = Scalar { bits: STOCK_TOP };
        assert(nx * ny >= 0) by (nonlinear_arith)
            requires
                nx >= 2,
                ny >= 2,
        ;
        let heights = level(z_top, nx * ny);
        MaterialField {
            bbox_min_x: minus(a, bmin.x, pad),
            bbox_min_y: minus(a, bmin.y, pad),
            res: resolution(a, endmill_diameter),
            nx,
            ny,
            z_top,
            z_floor: bmin.z.min(Scalar { bits: FLOOR }),
            heights,
            carved_up_to: 0,
            endmill_diameter,
            version: 1,
        }
    }

    /// Makes the stock untouched again.
    pub fn reset(&mut self)
        requires
            old(self).wf(),
        ensures
            final(self).wf(),
            final(self).same_stock(old(self)),
            final(self).heights@ == flat(old(self)),
            final(self).carved_up_to == 0,
            final(self).version == after_version(old(self).version),
    {
        self.heights = level(self.z_top, self.heights.len());
        self.carved_up_to = 0;
        self.version = bump_version(self.version);
    }

    fn window_of<A: Arithmetic>(&self, a: &A, seg: &Segment, radius: Scalar) -> (w: Window)
        requires
            a.lawful(),
        ensures
            w == window(a, self, *seg, radius),
            w.ix1 <= self.nx,
            w.iy1 <= self.ny,
    {
        if seg.rapid || (self.z_top.le(seg.start.z) && self.z_top.le(seg.end.z)) {
            return Window { ix0: 0, ix1: 0, iy0: 0, iy1: 0 };
        }
        Window {
            ix0: first_cell(
                a,
                minus(a, seg.start.x.min(seg.end.x), radius),
                self.bbox_min_x,
                self.res,
                self.nx,
            ),
            ix1: end_cell(
                a,
                plus(a, seg.start.x.max(seg.end.x), radius),
                self.bbox_min_x,
                self.res,
                self.nx,
            ),
            iy0: first_cell(
                a,
                minus(a, seg.start.y.min(seg.end.y), radius),
                self.bbox_min_y,
                self.res,
                self.ny,
            ),
            iy1: end_cell(
                a,
                plus(a, seg.start.y.max(seg.end.y), radius),
                self.bbox_min_y,
                self.res,
                self.ny,
            ),
        }
    }

    /// Cuts a segment.
    fn carve<A: Arithmetic>(&mut self, a: &A, seg: &Segment, radius: Scalar)
        requires
            a.lawful(),
            old(self).wf(),
            radius == times(a, old(self).endmill_diameter, Scalar { bits: HALF }),
        ensures
            final(self).wf(),
            *final(self) == (MaterialField { heights: final(self).heights, ..*old(self) }),
            final(self).heights@ == carved(a, old(self), old(self).heights@, *seg),
    {
        let ghost before = *self;
        let ghost m = self.nx as int;
        let count: usize = self.heights.len();
        let w = self.window_of(a, seg, radius);
        let r2 = times(a, radius, radius);
        let mut iy: usize = w.iy0;
        while iy < w.iy1
            invariant
                a.lawful(),
                self.wf(),
                before.wf(),
                m == before.nx,
                *self == (MaterialField { heights: self.heights, ..before }),
                radius == times(a, before.endmill_diameter, Scalar { bits: HALF }),
                r2 == times(a, radius, radius),
                w == window(a, &before, *seg, radius),
                w.ix1 <= before.nx,
                w.iy1 <= before.ny,
                w.iy0 <= iy,
                count == before.nx * before.ny,
                forall|k: int|
                    0 <= k < self.heights@.len() ==> #[trigger] self.heights@[k] == if k / m < iy {
                        height_after(a, &before, *seg, k, before.heights@[k])
                    } else {
                        before.heights@[k]
                    },
            decreases w.iy1 - iy,
        {
            let cy = middle(a, self.bbox_min_y, self.res, iy);
            proof {
                assert(0 <= iy * m && iy * m + m <= before.nx * before.ny) by (nonlinear_arith)
                    requires
                        0 <= iy < before.ny,
                        m == before.nx,
                        m > 0,
                ;
            }
            let row: usize = iy * self.nx;
            let mut ix: usize = w.ix0;
            while ix < w.ix1
                invariant
                    a.lawful(),
                    self.wf(),
                    before.wf(),
                    m == before.nx,
                    *self == (MaterialField { heights: self.heights, ..before }),
                    radius == times(a, before.endmill_diameter, Scalar { bits: HALF }),
                    r2 == times(a, radius, radius),
                    w == window(a, &before, *seg, radius),
                    w.ix1 <= before.nx,
                    w.iy1 <= before.ny,
                    w.iy0 <= iy < w.iy1,
                    w.ix0 <= ix,
                    count == before.nx * before.ny,
                    cy == middle(a, before.bbox_min_y, before.res, iy),
                    row == iy * m,
                    row + m <= before.nx * before.ny,
                    forall|k: int|
                        0 <= k < self.heights@.len() ==> #[trigger] self.heights@[k] == if k / m
                            < iy || (k / m == iy && k % m < ix) {
                            height_after(a, &before, *seg, k, before.heights@[k])
                        } else {
                            before.heights@[k]
                        },
                decreases w.ix1 - ix,
            {
                let cx = middle(a, self.bbox_min_x, self.res, ix);
                let (d2, z) = approach(a, *seg, cx, cy);
                let at: usize = row + ix;
                proof {
                    lemma_fundamental_div_mod_converse(at as int, m, iy as int, ix as int);
                }
                let ghost now = self.heights@;
                if !r2.lt(d2) {
                    if z.lt(self.heights[at]) {
                        self.heights.set(at, z);
                    }
                }
                proof {
                    assert forall|k: int| 0 <= k < self.heights@.len() implies #[trigger] self.heights@[k]
                        == if k / m < iy || (k / m == iy && k % m < ix + 1) {
                        height_after(a, &before, *seg, k, before.heights@[k])
                    } else {
                        before.heights@[k]
                    } by {
                        assert(now[k] == if k / m < iy || (k / m == iy && k % m < ix) {
                            height_after(a, &before, *seg, k, before.heights@[k])
                        } else {
                            before.heights@[k]
                        });
                        if k != at {
                            lemma_fundamental_div_mod(k, m);
                            if k / m == iy {
                                assert(m * (k / m) == iy * m) by (nonlinear_arith)
                                    requires
                                        k / m == iy,
                                ;
                            }
                        }
                    }
                }
                ix = ix + 1;
            }
            proof {
                assert forall|k: int| 0 <= k < self.heights@.len() implies #[trigger] self.heights@[k]
                    == if k / m < iy + 1 {
                    height_after(a, &before, *seg, k, before.heights@[k])
                } else {
                    before.heights@[k]
                } by {
                    if k / m == iy {
                        assert(!(k % m < ix) ==> !w.holds(k % m, iy as int));
                    }
                }
            }
            iy = iy + 1;
        }
        proof {
            let all = carved(a, &before, before.heights@, *seg);
            assert forall|k: int| 0 <= k < all.len() implies #[trigger] self.heights@[k]
                == all[k] by {
                assert(!(k / m < iy) ==> !w.holds(k % m, k / m));
            }
            assert(self.heights@ == all);
        }
    }

    /// Cuts the first `target` segments, and no more: those that follow are put back.
    pub fn carve_up_to<A: Arithmetic>(&mut self, a: &A, segments: &[Segment], target: usize)
        requires
            a.lawful(),
            old(self).wf(),
        ensures
            final(self).follows(a, old(self), segments@, target),
            old(self).shows(a, segments@) ==> final(self).shows(a, segments@),
    {
        let goal: usize = if target < segments.len() {
            target
        } else {
            segments.len()
        };
        let ghost entry = *self;
        if goal < self.carved_up_to {
            self.reset();
        }
        let ghost start = *self;
        let from: usize = self.carved_up_to;
        let ghost part = segments@.subrange(from as int, goal as int);
        if goal == from {
            assert(part == Seq::<Segment>::empty());
            proof {
                assert(segments@.take(0) == Seq::<Segment>::empty());
                self.lemma_same_stock_carves(a, &entry, flat(self), segments@.take(from as int));
                assert(self.cut() =~= cut_to(a, &entry, entry.cut(), segments@, target));
            }
            return;
        }
        let radius = times(a, self.endmill_diameter, Scalar { bits: HALF });
        assert(part.take(0) == Seq::<Segment>::empty());
        for i in from..goal
            invariant
                a.lawful(),
                self.wf(),
                goal <= segments.len(),
                *self == (MaterialField { heights: self.heights, ..start }),
                radius == times(a, start.endmill_diameter, Scalar { bits: HALF }),
                part == segments@.subrange(from as int, goal as int),
                self.heights@ == carved_all(a, &start, start.heights@, part.take(i - from)),
        {
            let ghost now = *self;
            assert(part.take(i + 1 - from).drop_last() == part.take(i - from));
            self.carve(a, &segments[i], radius);
            proof {
                now.lemma_same_stock_carved(a, &start, now.heights@, segments@[i as int]);
            }
        }
        assert(part.take(goal - from) == part);
        self.carved_up_to = goal;
        self.version = bump_version(self.version);
        proof {
            start.lemma_same_stock_carves(a, &entry, start.heights@, part);
            assert(self.cut() =~= cut_to(a, &entry, entry.cut(), segments@, target));
            if entry.shows(a, segments@) {
                let head = segments@.take(from as int);
                assert(segments@.take(0) == Seq::<Segment>::empty());
                lemma_carved_in_turn(a, &entry, flat(&entry), head, part);
                assert(head + part == segments@.take(goal as int));
                self.lemma_same_stock_carves(
                    a,
                    &entry,
                    flat(&entry),
                    segments@.take(goal as int),
                );
            }
        }
    }

    proof fn lemma_same_stock_carved<A: Arithmetic>(
        &self,
        a: &A,
        other: &MaterialField,
        heights: Seq<Scalar>,
        seg: Segment,
    )
        requires
            self.same_stock(other),
        ensures
            carved(a, self, heights, seg) == carved(a, other, heights, seg),
    {
        assert forall|k: int| 0 <= k < heights.len() implies height_after(
            a,
            self,
            seg,
            k,
            heights[k],
        ) == #[trigger] height_after(a, other, seg, k, heights[k]) by {
        }
        assert(carved(a, self, heights, seg) =~= carved(a, other, heights, seg));
    }

    /// What is cut depends on the stock alone, not on what was cut before.
    proof fn lemma_same_stock_carves<A: Arithmetic>(
        &self,
        a: &A,
        other: &MaterialField,
        heights: Seq<Scalar>,
        segs: Seq<Segment>,
    )
        requires
            self.same_stock(other),
        ensures
            carved_all(a, self, heights, segs) == carved_all(a, other, heights, segs),
        decreases segs.len(),
    {
        if segs.len() > 0 {
            self.lemma_same_stock_carves(a, other, heights, segs.drop_last());
            self.lemma_same_stock_carved(
                a,
                other,
                carved_all(a, other, heights, segs.drop_last()),
                segs.last(),
            );
        }
    }
}

/// `n` cells of the same height.
fn level(h: Scalar, n: usize) -> (v: Vec<Scalar>)
    ensures
        v@ == Seq::new(n as nat, |k: int| h),
{
    let mut v: Vec<Scalar> = Vec::new();
    for i in 0..n
        invariant
            v@ == Seq::new(i as nat, |k: int| h),
    {
        v.push(h);
        assert(v@ == Seq::new((i + 1) as nat, |k: int| h));
    }
    v
}

/// Cutting one path and then another is cutting both in turn.
pub proof fn lemma_carved_in_turn<A: Arithmetic>(
    a: &A,
    f: &MaterialField,
    heights: Seq<Scalar>,
    first: Seq<Segment>,
    second: Seq<Segment>,
)
    ensures
        carved_all(a, f, carved_all(a, f, heights, first), second) == carved_all(
            a,
            f,
            heights,
            first + second,
        ),
    decreases second.len(),
{
    if second.len() == 0 {
        assert(first + second == first);
    } else {
        lemma_carved_in_turn(a, f, heights, first, second.drop_last());
        assert((first + second).drop_last() == first + second.drop_last());
    }
}

/// Cutting never adds material: every cell stays as it is or becomes lower.
pub proof fn lemma_carving_lowers<A: Arithmetic>(
    a: &A,
    f: &MaterialField,
    heights: Seq<Scalar>,
    segs: Seq<Segment>,
    k: int,
)
    requires
        0 <= k < heights.len(),
    ensures
        carved_all(a, f, heights, segs).len() == heights.len(),
        ({
            let h = carved_all(a, f, heights, segs)[k];
            h == heights[k] || h.below(heights[k])
        }),
    decreases segs.len(),
{
    if segs.len() > 0 {
        lemma_carving_lowers(a, f, heights, segs.drop_last(), k);
    }
}

/// Rapid moves, and moves above the stock, cut nothing.
pub proof fn lemma_rapid_cuts_nothing<A: Arithmetic>(
    a: &A,
    f: &MaterialField,
    heights: Seq<Scalar>,
    seg: Segment,
)
    requires
        seg.rapid || (f.z_top.at_most(seg.start.z) && f.z_top.at_most(seg.end.z)),
    ensures
        carved(a, f, heights, seg) == heights,
{
    assert(carved(a, f, heights, seg) =~= heights);
}

/// Targets that were cut to before leave no trace. After any number of them the heights and the
/// count are those of cutting to the last one at once, no height is above the top, and cutting to
/// it again changes nothing.
pub proof fn lemma_targets_leave_no_trace<A: Arithmetic>(
    a: &A,
    f: &MaterialField,
    version: u32,
    segs: Seq<Segment>,
    targets: Seq<usize>,
)
    requires
        targets.len() > 0,
        segs.len() <= usize::MAX,
        !f.z_top.nan(),
    ensures
        ({
            let c = cut_to_all(a, f, uncut(f, version), segs, targets);
            let once = cut_to(a, f, uncut(f, version), segs, targets.last());
            &&& c.heights == once.heights
            &&& c.carved_up_to == once.carved_up_to
            &&& c.carved_up_to == if targets.last() < segs.len() {
                targets.last() as int
            } else {
                segs.len() as int
            }
            &&& c.heights.len() == flat(f).len()
            &&& forall|k: int| 0 <= k < c.heights.len() ==> (#[trigger] c.heights[k]).at_most(
                f.z_top,
            )
            &&& cut_to(a, f, c, segs, targets.last()) == c
        }),
{
    lemma_cut_shows(a, f, version, segs, targets);
    lemma_cut_shows(a, f, version, segs, seq![targets.last()]);
    let alone = seq![targets.last()];
    assert(alone.drop_last() == Seq::<usize>::empty());
    reveal_with_fuel(cut_to_all, 2);
    let c = cut_to_all(a, f, uncut(f, version), segs, targets);
    assert forall|k: int| 0 <= k < c.heights.len() implies (#[trigger] c.heights[k]).at_most(
        f.z_top,
    ) by {
        lemma_carving_keeps_cells(a, f, flat(f), segs.take(c.carved_up_to as int));
        lemma_carving_lowers(a, f, flat(f), segs.take(c.carved_up_to as int), k);
    }
    lemma_carving_keeps_cells(a, f, flat(f), segs.take(c.carved_up_to as int));
}

proof fn lemma_carving_keeps_cells<A: Arithmetic>(
    a: &A,
    f: &MaterialField,
    heights: Seq<Scalar>,
    segs: Seq<Segment>,
)
    ensures
        carved_all(a, f, heights, segs).len() == heights.len(),
    decreases segs.len(),
{
    if segs.len() > 0 {
        lemma_carving_keeps_cells(a, f, heights, segs.drop_last());
    }
}

/// After any targets the first segments of the path are cut, and nothing else.
proof fn lemma_cut_shows<A: Arithmetic>(
    a: &A,
    f: &MaterialField,
    version: u32,
    segs: Seq<Segment>,
    targets: Seq<usize>,
)
    requires
        segs.len() <= usize::MAX,
    ensures
        ({
            let c = cut_to_all(a, f, uncut(f, version), segs, targets);
            &&& c.carved_up_to <= segs.len()
            &&& c.heights == carved_all(a, f, flat(f), segs.take(c.carved_up_to as int))
            &&& targets.len() > 0 ==> c.carved_up_to == if targets.last() < segs.len() {
                targets.last() as int
            } else {
                segs.len() as int
            }
        }),
    decreases targets.len(),
{
    assert(segs.take(0) == Seq::<Segment>::empty());
    if targets.len() > 0 {
        lemma_cut_shows(a, f, version, segs, targets.drop_last());
        let before = cut_to_all(a, f, uncut(f, version), segs, targets.drop_last());
        let c = cut_to_all(a, f, uncut(f, version), segs, targets);
        let goal = c.carved_up_to as int;
        if before.carved_up_to <= goal {
            let head = segs.take(before.carved_up_to as int);
            let part = segs.subrange(before.carved_up_to as int, goal);
            lemma_carved_in_turn(a, f, flat(f), head, part);
            assert(head + part == segs.take(goal));
        } else {
            assert(segs.subrange(0, goal) == segs.take(goal));
        }
    }
}

/// Calls in a row do as cutting to one target after the other does.
proof fn lemma_calls_in_a_row<A: Arithmetic>(
    a: &A,
    fs: Seq<MaterialField>,
    segs: Seq<Segment>,
    targets: Seq<usize>,
    n: int,
)
    requires
        0 <= n <= targets.len(),
        fs.len() == targets.len() + 1,
        forall|i: int|
            0 <= i < targets.len() ==> fs[i + 1].follows(a, &fs[i], segs, #[trigger] targets[i]),
    ensures
        fs[n].same_stock(&fs[0]),
        fs[n].cut() == cut_to_all(a, &fs[0], fs[0].cut(), segs, targets.take(n)),
    decreases n,
{
    if n > 0 {
        lemma_calls_in_a_row(a, fs, segs, targets, n - 1);
        let before = fs[n - 1];
        let target = targets[n - 1];
        assert(fs[n - 1 + 1].follows(a, &before, segs, target));
        assert(targets.take(n).drop_last() == targets.take(n - 1));
        lemma_same_stock_cut_to(a, &before, &fs[0], before.cut(), segs, target);
    }
}

proof fn lemma_same_stock_cut_to<A: Arithmetic>(
    a: &A,
    f: &MaterialField,
    other: &MaterialField,
    c: Cut,
    segs: Seq<Segment>,
    target: usize,
)
    requires
        f.same_stock(other),
    ensures
        cut_to(a, f, c, segs, target) == cut_to(a, other, c, segs, target),
{
    let goal = if target < segs.len() {
        target as int
    } else {
        segs.len() as int
    };
    assert(flat(f) == flat(other));
    let start = if goal < c.carved_up_to {
        Cut { heights: flat(f), carved_up_to: 0, version: after_version(c.version) }
    } else {
        c
    };
    f.lemma_same_stock_carves(
        a,
        other,
        start.heights,
        segs.subrange(start.carved_up_to as int, goal),
    );
}

/// Calls that cut to earlier targets, higher or lower, leave no trace. `fs` is new stock and what it
/// is after each of the calls, and `g` is new stock that was cut to the last target at once. Both
/// have the same heights, one for every cell and none above the top, and one more call with the last
/// target changes nothing, not even the version.
pub proof fn lemma_calls_leave_no_trace<A: Arithmetic>(
    a: &A,
    bmin: Vec3,
    bmax: Vec3,
    endmill_diameter: Scalar,
    segs: Seq<Segment>,
    targets: Seq<usize>,
    fs: Seq<MaterialField>,
    untouched: MaterialField,
    g: MaterialField,
    again: MaterialField,
)
    requires
        targets.len() > 0,
        segs.len() <= usize::MAX,
        fs.len() == targets.len() + 1,
        fs[0].is_new(a, bmin, bmax, endmill_diameter),
        forall|i: int|
            0 <= i < targets.len() ==> fs[i + 1].follows(a, &fs[i], segs, #[trigger] targets[i]),
        untouched.is_new(a, bmin, bmax, endmill_diameter),
        g.follows(a, &untouched, segs, targets.last()),
        again.follows(a, &fs.last(), segs, targets.last()),
    ensures
        ({
            let f = fs.last();
            &&& f.carved_up_to == if targets.last() < segs.len() {
                targets.last() as int
            } else {
                segs.len() as int
            }
            &&& f.carved_up_to == g.carved_up_to
            &&& f.heights@ == g.heights@
            &&& f.heights@.len() == f.nx * f.ny
            &&& forall|k: int| 0 <= k < f.heights@.len() ==> (#[trigger] f.heights@[k]).at_most(
                f.z_top,
            )
            &&& again.same_stock(&f)
            &&& again.cut() == f.cut()
        }),
{
    let n = targets.len() as int;
    let f = fs[n];
    lemma_calls_in_a_row(a, fs, segs, targets, n);
    assert(targets.take(n) == targets);
    assert(fs[0].cut() == uncut(&fs[0], 1));
    lemma_targets_leave_no_trace(a, &fs[0], 1, segs, targets);
    assert(untouched.heights@ == fs[0].heights@);
    assert(untouched.same_stock(&fs[0]));
    assert(untouched.cut() == uncut(&fs[0], 1));
    lemma_same_stock_cut_to(a, &untouched, &fs[0], untouched.cut(), segs, targets.last());
    lemma_same_stock_cut_to(a, &f, &fs[0], f.cut(), segs, targets.last());
}

} // verus!
