//! How often the tool runs over the same path.
use std::collections::HashMap;
use vstd::prelude::*;
use crate::arith::{
    minus, over, plus, single1, single2, single_of_signed, times, to_i32, Arithmetic, Op, Scalar,
};
use crate::grbl::coverage::{
    apply_path_coverage_counts, passes_on, PathInterval, MIN_PATH_LEN_MM,
};
use crate::grbl::range_max::{larger, max_count};
use crate::grbl::state::{JobState, Segment, Vec3};

verus! {

/// The tolerance of a job that names none, 0.05.
pub const DEFAULT_PASS_TOLERANCE_MM: u32 = 0x3d4c_cccd;

/// The least tolerance and the least angle of a bucket, 0.001.
pub const LEAST: u32 = 0x3a83_126f;

/// The largest angle of a bucket, 0.05.
pub const WIDEST: u32 = 0x3d4c_cccd;

/// 10
pub const TEN: u32 = 0x4120_0000;

/// Half a turn.
pub const PI: u32 = 0x4049_0fdb;

/// The least tolerance that is used for `tolerance_mm`.
pub fn normalize_pass_tolerance(tolerance_mm: Scalar) -> (r: Scalar)
    ensures
        r == tolerance_mm.greater(Scalar { bits: LEAST }),
{
    tolerance_mm.max(Scalar { bits: LEAST })
}

/// Where a line is looked up: its direction and its distance from the origin, both rounded.
#[derive(Clone, Copy, Debug, PartialEq, Eq, Structural)]
pub struct PathLineKey {
    pub angle: i64,
    pub offset: i64,
    pub rapid: bool,
}

/// The line along a segment.
#[derive(Clone, Copy, Debug)]
pub struct PathProjection {
    pub key: PathLineKey,
    pub theta: Scalar,
    pub dir_x: Scalar,
    pub dir_y: Scalar,
    pub offset: Scalar,
    pub start: Vec3,
    pub end: Vec3,
}

/// The width of an angle bucket.
pub open spec fn spec_angle_bucket_size<A: Arithmetic>(a: &A, tolerance_mm: Scalar) -> Scalar {
    over(a, tolerance_mm, Scalar { bits: TEN }).clamped(
        Scalar { bits: LEAST },
        Scalar { bits: WIDEST },
    )
}

#[verifier::when_used_as_spec(spec_angle_bucket_size)]
pub fn angle_bucket_size<A: Arithmetic>(a: &A, tolerance_mm: Scalar) -> (r: Scalar)
    requires
        a.lawful(),
    ensures
        r == spec_angle_bucket_size(a, tolerance_mm),
{
    over(a, tolerance_mm, Scalar { bits: TEN }).clamp(
        Scalar { bits: LEAST },
        Scalar { bits: WIDEST },
    )
}

/// How many angle buckets make half a turn.
pub open spec fn bins<A: Arithmetic>(a: &A, angle_step: Scalar) -> i32 {
    to_i32(a, single1(a, Op::Round, over(a, Scalar { bits: PI }, angle_step)))
}

/// The bucket of the same direction in the first half turn.
pub open spec fn bucket_of<A: Arithmetic>(a: &A, bucket: int, angle_step: Scalar) -> int {
    let n = bins(a, angle_step);
    if n > 0 {
        bucket % (n as int)
    } else {
        bucket
    }
}

fn normalize_angle_bucket<A: Arithmetic>(a: &A, bucket: i64, angle_step: Scalar) -> (r: i64)
    requires
        a.lawful(),
        -0x1_0000_0000 <= bucket <= 0x1_0000_0000,
    ensures
        r == bucket_of(a, bucket as int, angle_step),
        -0x1_0000_0000 <= r <= 0x1_0000_0000,
        -0x8000_0000 <= bucket <= 0x7fff_ffff ==> -0x8000_0000 <= r <= 0x7fff_ffff,
{
    let n: i64 = to_i32(a, single1(a, Op::Round, over(a, Scalar { bits: PI }, angle_step))) as i64;
    if n <= 0 {
        bucket
    } else if bucket >= 0 {
        ((bucket as u64) % (n as u64)) as i64
    } else {
        let short: u64 = ((-bucket) as u64) % (n as u64);
        proof {
            let m = n as int;
            let b = bucket as int;
            vstd::arithmetic::div_mod::lemma_fundamental_div_mod(-b, m);
            let q = (-b) / m;
            let r = (-b) % m;
            if r == 0 {
                assert(b == (-q) * m) by (nonlinear_arith)
                    requires
                        -b == m * q,
                ;
                vstd::arithmetic::div_mod::lemma_fundamental_div_mod_converse(b, m, -q, 0);
            } else {
                assert(b == m * (-q - 1) + (m - r)) by (nonlinear_arith)
                    requires
                        -b == m * q + r,
                ;
                vstd::arithmetic::div_mod::lemma_fundamental_div_mod_converse(
                    b,
                    m,
                    -q - 1,
                    m - r,
                );
            }
        }
        if short == 0 {
            0
        } else {
            n - short as i64
        }
    }
}

/// The line along a segment, unless the segment is too short or has no length. The directions of
/// a line and of its reverse are one.
pub open spec fn projection_of<A: Arithmetic>(
    a: &A,
    segment: Segment,
    tolerance_mm: Scalar,
    angle_step: Scalar,
) -> Option<PathProjection> {
    let pi = Scalar { bits: PI };
    let dx = minus(a, segment.end.x, segment.start.x);
    let dy = minus(a, segment.end.y, segment.start.y);
    let xy_len = single1(a, Op::Sqrt, plus(a, times(a, dx, dx), times(a, dy, dy)));
    if xy_len.below(Scalar { bits: MIN_PATH_LEN_MM }) || !xy_len.finite() {
        None
    } else {
        let angle = single2(a, Op::Atan2, dy, dx);
        let upper = if angle.below(Scalar { bits: 0 }) {
            plus(a, angle, pi)
        } else {
            angle
        };
        let theta = if pi.at_most(upper) {
            minus(a, upper, pi)
        } else {
            upper
        };
        let bucket = bucket_of(
            a,
            to_i32(a, single1(a, Op::Round, over(a, theta, angle_step))) as int,
            angle_step,
        ) as i64;
        let rounded = times(a, single_of_signed(a, bucket), angle_step);
        let dir_x = single1(a, Op::Cos, rounded);
        let dir_y = single1(a, Op::Sin, rounded);
        let offset = plus(
            a,
            times(a, segment.start.x, dir_y.negated()),
            times(a, segment.start.y, dir_x),
        );
        Some(
            PathProjection {
                key: PathLineKey {
                    angle: bucket,
                    offset: to_i32(
                        a,
                        single1(a, Op::Round, over(a, offset, tolerance_mm)),
                    ) as i64,
                    rapid: segment.rapid,
                },
                theta: rounded,
                dir_x,
                dir_y,
                offset,
                start: segment.start,
                end: segment.end,
            },
        )
    }
}

impl PathProjection {
    fn new<A: Arithmetic>(
        a: &A,
        segment: &Segment,
        tolerance_mm: Scalar,
        angle_step: Scalar,
    ) -> (p: Option<PathProjection>)
        requires
            a.lawful(),
        ensures
            p == projection_of(a, *segment, tolerance_mm, angle_step),
            p matches Some(q) ==> small_key(q.key),
    {
        let dx = minus(a, segment.end.x, segment.start.x);
        let dy = minus(a, segment.end.y, segment.start.y);
        let xy_len = single1(a, Op::Sqrt, plus(a, times(a, dx, dx), times(a, dy, dy)));
        if xy_len.lt(Scalar { bits: MIN_PATH_LEN_MM }) || !xy_len.is_finite() {
            return None;
        }
        let pi = Scalar { bits: PI };
        let mut theta = single2(a, Op::Atan2, dy, dx);
        if theta.lt(Scalar { bits: 0 }) {
            theta = plus(a, theta, pi);
        }
        if pi.le(theta) {
            theta = minus(a, theta, pi);
        }
        let nearest: i32 = to_i32(a, single1(a, Op::Round, over(a, theta, angle_step)));
        let angle: i64 = normalize_angle_bucket(a, nearest as i64, angle_step);
        let rounded = times(a, single_of_signed(a, angle), angle_step);
        let dir_x = single1(a, Op::Cos, rounded);
        let dir_y = single1(a, Op::Sin, rounded);
        let offset = plus(
            a,
            times(a, segment.start.x, dir_y.neg()),
            times(a, segment.start.y, dir_x),
        );
        Some(
            PathProjection {
                key: PathLineKey {
                    angle,
                    offset: quantize(a, offset, tolerance_mm) as i64,
                    rapid: segment.rapid,
                },
                theta: rounded,
                dir_x,
                dir_y,
                offset,
                start: segment.start,
                end: segment.end,
            },
        )
    }
}

fn quantize<A: Arithmetic>(a: &A, v: Scalar, tolerance_mm: Scalar) -> (r: i32)
    requires
        a.lawful(),
    ensures
        r == to_i32(a, single1(a, Op::Round, over(a, v, tolerance_mm))),
{
    to_i32(a, single1(a, Op::Round, over(a, v, tolerance_mm)))
}

/// The keys of lines that segments lie on.
pub open spec fn small_key(key: PathLineKey) -> bool {
    -0x8000_0000 <= key.angle <= 0x7fff_ffff && -0x8000_0000 <= key.offset <= 0x7fff_ffff
}

/// The piece of the line with the direction `(dir_x, dir_y)` that a segment runs over, unless it
/// is too short or its ends are no numbers.
pub open spec fn interval_of<A: Arithmetic>(
    a: &A,
    segment_index: int,
    segment: Segment,
    dir_x: Scalar,
    dir_y: Scalar,
) -> Option<PathInterval> {
    let p = plus(a, times(a, segment.start.x, dir_x), times(a, segment.start.y, dir_y));
    let q = plus(a, times(a, segment.end.x, dir_x), times(a, segment.end.y, dir_y));
    let start = p.lesser(q);
    let end = p.greater(q);
    if minus(a, end, start).below(Scalar { bits: MIN_PATH_LEN_MM }) || start.nan() {
        None
    } else {
        Some(PathInterval { segment_index: segment_index as usize, start, end })
    }
}

impl PathInterval {
    fn new<A: Arithmetic>(
        a: &A,
        segment_index: usize,
        segment: &Segment,
        dir_x: Scalar,
        dir_y: Scalar,
    ) -> (i: Option<PathInterval>)
        requires
            a.lawful(),
        ensures
            i == interval_of(a, segment_index as int, *segment, dir_x, dir_y),
            i matches Some(j) ==> j.wf() && j.segment_index == segment_index,
    {
        let p = plus(a, times(a, segment.start.x, dir_x), times(a, segment.start.y, dir_y));
        let q = plus(a, times(a, segment.end.x, dir_x), times(a, segment.end.y, dir_y));
        let start = p.min(q);
        let end = p.max(q);
        if minus(a, end, start).lt(Scalar { bits: MIN_PATH_LEN_MM }) || start.is_nan() {
            return None;
        }
        Some(PathInterval { segment_index, start, end })
    }
}

/// A line and the pieces of it that segments run over.
pub struct PathLineGroup {
    pub line: PathProjection,
    pub intervals: Vec<PathInterval>,
}

/// What a group holds.
pub struct Lane {
    pub line: PathProjection,
    pub intervals: Seq<PathInterval>,
}

pub open spec fn lanes(groups: Seq<PathLineGroup>) -> Seq<Lane> {
    groups.map_values(|g: PathLineGroup| Lane { line: g.line, intervals: g.intervals@ })
}

/// The distance of `point` from `line`, with a sign for the side.
pub open spec fn spec_point_line_distance<A: Arithmetic>(
    a: &A,
    point: Vec3,
    line: PathProjection,
) -> Scalar {
    minus(
        a,
        plus(a, times(a, point.x, line.dir_y.negated()), times(a, point.y, line.dir_x)),
        line.offset,
    )
}

#[verifier::when_used_as_spec(spec_point_line_distance)]
pub fn point_line_distance<A: Arithmetic>(a: &A, point: Vec3, line: PathProjection) -> (r: Scalar)
    requires
        a.lawful(),
    ensures
        r == spec_point_line_distance(a, point, line),
{
    minus(
        a,
        plus(a, times(a, point.x, line.dir_y.neg()), times(a, point.y, line.dir_x)),
        line.offset,
    )
}

/// The angle between two lines.
pub open spec fn spec_directionless_angle_diff<A: Arithmetic>(a: &A, x: Scalar, y: Scalar) -> Scalar {
    let diff = minus(a, x, y).absolute();
    diff.lesser(minus(a, Scalar { bits: PI }, diff))
}

#[verifier::when_used_as_spec(spec_directionless_angle_diff)]
pub fn directionless_angle_diff<A: Arithmetic>(a: &A, x: Scalar, y: Scalar) -> (r: Scalar)
    requires
        a.lawful(),
    ensures
        r == spec_directionless_angle_diff(a, x, y),
{
    let diff = minus(a, x, y).abs();
    diff.min(minus(a, Scalar { bits: PI }, diff))
}

/// Whether a segment's line is the group's, up to the tolerance.
pub open spec fn fits<A: Arithmetic>(
    a: &A,
    p: PathProjection,
    line: PathProjection,
    tolerance_mm: Scalar,
    angle_step: Scalar,
) -> bool {
    &&& p.key.rapid == line.key.rapid
    &&& directionless_angle_diff(a, p.theta, line.theta).at_most(angle_step)
    &&& point_line_distance(a, p.start, line).absolute().at_most(tolerance_mm)
    &&& point_line_distance(a, p.end, line).absolute().at_most(tolerance_mm)
}

fn projection_fits_group<A: Arithmetic>(
    a: &A,
    p: &PathProjection,
    line: &PathProjection,
    tolerance_mm: Scalar,
    angle_step: Scalar,
) -> (yes: bool)
    requires
        a.lawful(),
    ensures
        yes == fits(a, *p, *line, tolerance_mm, angle_step),
{
    p.key.rapid == line.key.rapid && directionless_angle_diff(a, p.theta, line.theta).le(
        angle_step,
    ) && point_line_distance(a, p.start, *line).abs().le(tolerance_mm) && point_line_distance(
        a,
        p.end,
        *line,
    ).abs().le(tolerance_mm)
}

/// The first of the first `n` lanes that has the key `key` and that the segment fits.
pub open spec fn first_with_key<A: Arithmetic>(
    a: &A,
    lanes: Seq<Lane>,
    n: int,
    key: PathLineKey,
    p: PathProjection,
    tolerance_mm: Scalar,
    angle_step: Scalar,
) -> Option<int>
    decreases n,
{
    if n <= 0 {
        None
    } else {
        match first_with_key(a, lanes, n - 1, key, p, tolerance_mm, angle_step) {
            Some(k) => Some(k),
            None => if lanes[n - 1].line.key == key && fits(
                a,
                p,
                lanes[n - 1].line,
                tolerance_mm,
                angle_step,
            ) {
                Some(n - 1)
            } else {
                None
            },
        }
    }
}

/// The nine keys around that of a segment: three angles, and for each three offsets.
pub open spec fn key_near<A: Arithmetic>(
    a: &A,
    p: PathProjection,
    angle_step: Scalar,
    n: int,
) -> PathLineKey {
    PathLineKey {
        angle: bucket_of(a, p.key.angle + n / 3 - 1, angle_step) as i64,
        offset: (p.key.offset + n % 3 - 1) as i64,
        rapid: p.key.rapid,
    }
}

/// The lane that a segment fits under the first `n` of the keys around its own.
pub open spec fn lane_under<A: Arithmetic>(
    a: &A,
    lanes: Seq<Lane>,
    p: PathProjection,
    tolerance_mm: Scalar,
    angle_step: Scalar,
    n: int,
) -> Option<int>
    decreases n,
{
    if n <= 0 {
        None
    } else {
        match lane_under(a, lanes, p, tolerance_mm, angle_step, n - 1) {
            Some(k) => Some(k),
            None => first_with_key(
                a,
                lanes,
                lanes.len() as int,
                key_near(a, p, angle_step, n - 1),
                p,
                tolerance_mm,
                angle_step,
            ),
        }
    }
}

/// The lanes with the segment added: to the lane that it fits, or to a new one.
pub open spec fn with_segment<A: Arithmetic>(
    a: &A,
    lanes: Seq<Lane>,
    index: int,
    segment: Segment,
    tolerance_mm: Scalar,
    angle_step: Scalar,
) -> Seq<Lane> {
    match projection_of(a, segment, tolerance_mm, angle_step) {
        None => lanes,
        Some(p) => {
            let (with, k) = match lane_under(a, lanes, p, tolerance_mm, angle_step, 9) {
                Some(k) => (lanes, k),
                None => (
                    lanes.push(Lane { line: p, intervals: Seq::empty() }),
                    lanes.len() as int,
                ),
            };
            match interval_of(a, index, segment, with[k].line.dir_x, with[k].line.dir_y) {
                Some(i) => with.update(
                    k,
                    Lane { line: with[k].line, intervals: with[k].intervals.push(i) },
                ),
                None => with,
            }
        },
    }
}

/// The lanes of a toolpath.
pub open spec fn lanes_of<A: Arithmetic>(
    a: &A,
    segments: Seq<Segment>,
    tolerance_mm: Scalar,
    angle_step: Scalar,
) -> Seq<Lane>
    decreases segments.len(),
{
    if segments.len() == 0 {
        Seq::empty()
    } else {
        with_segment(
            a,
            lanes_of(a, segments.drop_last(), tolerance_mm, angle_step),
            segments.len() - 1,
            segments.last(),
            tolerance_mm,
            angle_step,
        )
    }
}

/// A number for a key.
spec fn code_of(key: PathLineKey) -> i128 {
    ((key.angle * 0x10_0000_0000 + key.offset) * 2 + if key.rapid {
        1int
    } else {
        0
    }) as i128
}

/// Keys of segments' lines, and those around them.
spec fn near_key(key: PathLineKey) -> bool {
    -0x1_0000_0000 <= key.angle <= 0x1_0000_0000 && -0x1_0000_0000 <= key.offset
        <= 0x1_0000_0000
}

proof fn lemma_code_of(x: PathLineKey, y: PathLineKey)
    requires
        near_key(x),
        near_key(y),
        code_of(x) == code_of(y),
    ensures
        x == y,
{
    assert(x.angle == y.angle);
    assert(x.offset == y.offset);
}

fn code(key: PathLineKey) -> (c: i128)
    requires
        near_key(key),
    ensures
        c == code_of(key),
{
    let rapid: i128 = if key.rapid {
        1
    } else {
        0
    };
    ((key.angle as i128) * 0x10_0000_0000 + key.offset as i128) * 2 + rapid
}

/// The positions of the first `n` lanes with the code `c`.
spec fn coded(lanes: Seq<Lane>, n: int, c: i128) -> Seq<usize>
    decreases n,
{
    if n <= 0 {
        Seq::empty()
    } else if code_of(lanes[n - 1].line.key) == c {
        coded(lanes, n - 1, c).push((n - 1) as usize)
    } else {
        coded(lanes, n - 1, c)
    }
}

/// The table holds the positions of the lanes under the codes of their keys.
spec fn indexed(table: Map<i128, Vec<usize>>, lanes: Seq<Lane>) -> bool {
    forall|c: i128|
        #![trigger table.contains_key(c)]
        #![trigger coded(lanes, lanes.len() as int, c)]
        coded(lanes, lanes.len() as int, c) == if table.contains_key(c) {
            table[c]@
        } else {
            Seq::empty()
        }
}

/// Lanes as they come from segments before position `n`.
spec fn sound(lanes: Seq<Lane>, n: int) -> bool {
    forall|k: int|
        0 <= k < lanes.len() ==> small_key((#[trigger] lanes[k]).line.key) && forall|j: int|
            0 <= j < lanes[k].intervals.len() ==> (#[trigger] lanes[k].intervals[j]).wf()
                && lanes[k].intervals[j].segment_index < n
}

/// Only the lanes in the list of a key can be the first with that key.
proof fn lemma_first_with_key<A: Arithmetic>(
    a: &A,
    lanes: Seq<Lane>,
    n: int,
    key: PathLineKey,
    p: PathProjection,
    tolerance_mm: Scalar,
    angle_step: Scalar,
)
    requires
        0 <= n <= lanes.len() <= usize::MAX,
        near_key(key),
        forall|k: int| 0 <= k < lanes.len() ==> small_key((#[trigger] lanes[k]).line.key),
    ensures
        ({
            let ids = coded(lanes, n, code_of(key));
            match first_with_key(a, lanes, n, key, p, tolerance_mm, angle_step) {
                Some(k) => exists|j: int|
                    0 <= j < ids.len() && (#[trigger] ids[j]) == k && fits(
                        a,
                        p,
                        lanes[k].line,
                        tolerance_mm,
                        angle_step,
                    ) && forall|i: int|
                        0 <= i < j ==> !fits(
                            a,
                            p,
                            lanes[(#[trigger] ids[i]) as int].line,
                            tolerance_mm,
                            angle_step,
                        ),
                None => forall|i: int|
                    0 <= i < ids.len() ==> !fits(
                        a,
                        p,
                        lanes[(#[trigger] ids[i]) as int].line,
                        tolerance_mm,
                        angle_step,
                    ),
            }
        }),
        forall|i: int|
            0 <= i < coded(lanes, n, code_of(key)).len() ==> (#[trigger] coded(
                lanes,
                n,
                code_of(key),
            )[i]) < n,
    decreases n,
{
    if n > 0 {
        lemma_first_with_key(a, lanes, n - 1, key, p, tolerance_mm, angle_step);
        let ids = coded(lanes, n, code_of(key));
        let before = coded(lanes, n - 1, code_of(key));
        let last = lanes[n - 1].line;
        assert(code_of(last.key) == code_of(key) ==> last.key == key) by {
            if code_of(last.key) == code_of(key) {
                lemma_code_of(last.key, key);
            }
        }
        assert(forall|i: int| 0 <= i < before.len() ==> #[trigger] ids[i] == before[i]);
        match first_with_key(a, lanes, n - 1, key, p, tolerance_mm, angle_step) {
            Some(k) => {
                let j = choose|j: int|
                    0 <= j < before.len() && (#[trigger] before[j]) == k && fits(
                        a,
                        p,
                        lanes[k].line,
                        tolerance_mm,
                        angle_step,
                    ) && forall|i: int|
                        0 <= i < j ==> !fits(
                            a,
                            p,
                            lanes[(#[trigger] before[i]) as int].line,
                            tolerance_mm,
                            angle_step,
                        );
                assert(ids[j] == k);
            },
            None => {
                if last.key == key && fits(a, p, last, tolerance_mm, angle_step) {
                    assert(ids[before.len() as int] == n - 1);
                }
            },
        }
    }
}

/// The first lane with the key that the segment fits, by the table.
fn find_with_key<A: Arithmetic>(
    a: &A,
    key: PathLineKey,
    p: &PathProjection,
    groups: &Vec<PathLineGroup>,
    table: &HashMap<i128, Vec<usize>>,
    tolerance_mm: Scalar,
    angle_step: Scalar,
) -> (found: Option<usize>)
    requires
        a.lawful(),
        near_key(key),
        forall|k: int| 0 <= k < groups.len() ==> small_key((#[trigger] groups@[k]).line.key),
        indexed(table@, lanes(groups@)),
    ensures
        match found {
            Some(k) => first_with_key(
                a,
                lanes(groups@),
                groups.len() as int,
                key,
                *p,
                tolerance_mm,
                angle_step,
            ) == Some(k as int) && k < groups.len(),
            None => first_with_key(
                a,
                lanes(groups@),
                groups.len() as int,
                key,
                *p,
                tolerance_mm,
                angle_step,
            ) is None,
        },
{
    let c: i128 = code(key);
    let ghost all = lanes(groups@);
    let ghost ids = coded(all, all.len() as int, c);
    proof {
        assert(forall|k: int| 0 <= k < all.len() ==> (#[trigger] all[k]).line == groups@[k].line);
        lemma_first_with_key(a, all, all.len() as int, key, *p, tolerance_mm, angle_step);
    }
    match table.get(&c) {
        None => {
            assert(!table@.contains_key(c));
            None
        },
        Some(list) => {
            assert(table@.contains_key(c));
            assert(list@ == ids);
            for i in 0..list.len()
                invariant
                    a.lawful(),
                    near_key(key),
                    all == lanes(groups@),
                    forall|j: int|
                        0 <= j < all.len() ==> small_key((#[trigger] all[j]).line.key),
                    list@ == ids,
                    ids == coded(all, all.len() as int, code_of(key)),
                    forall|j: int| 0 <= j < ids.len() ==> (#[trigger] ids[j]) < groups.len(),
                    forall|k: int|
                        0 <= k < all.len() ==> (#[trigger] all[k]).line == groups@[k].line,
                    forall|j: int|
                        0 <= j < i ==> !fits(
                            a,
                            *p,
                            all[(#[trigger] ids[j]) as int].line,
                            tolerance_mm,
                            angle_step,
                        ),
            {
                let k: usize = list[i];
                assert(ids[i as int] == k);
                assert(all[k as int].line == groups@[k as int].line);
                if projection_fits_group(a, p, &groups[k].line, tolerance_mm, angle_step) {
                    proof {
                        lemma_first_with_key(
                            a,
                            all,
                            all.len() as int,
                            key,
                            *p,
                            tolerance_mm,
                            angle_step,
                        );
                        match first_with_key(
                            a,
                            all,
                            all.len() as int,
                            key,
                            *p,
                            tolerance_mm,
                            angle_step,
                        ) {
                            Some(first) => {
                                let j = choose|j: int|
                                    0 <= j < ids.len() && (#[trigger] ids[j]) == first && fits(
                                        a,
                                        *p,
                                        all[first].line,
                                        tolerance_mm,
                                        angle_step,
                                    ) && forall|i: int|
                                        0 <= i < j ==> !fits(
                                            a,
                                            *p,
                                            all[(#[trigger] ids[i]) as int].line,
                                            tolerance_mm,
                                            angle_step,
                                        );
                                assert(!(j < i));
                                assert(!(i < j));
                            },
                            None => {},
                        }
                    }
                    return Some(k);
                }
            }
            None
        },
    }
}

/// The lane that a segment fits.
fn find_matching_line_group<A: Arithmetic>(
    a: &A,
    p: &PathProjection,
    groups: &Vec<PathLineGroup>,
    table: &HashMap<i128, Vec<usize>>,
    tolerance_mm: Scalar,
    angle_step: Scalar,
) -> (found: Option<usize>)
    requires
        a.lawful(),
        small_key(p.key),
        forall|k: int| 0 <= k < groups.len() ==> small_key((#[trigger] groups@[k]).line.key),
        indexed(table@, lanes(groups@)),
    ensures
        match found {
            Some(k) => lane_under(a, lanes(groups@), *p, tolerance_mm, angle_step, 9) == Some(
                k as int,
            ) && k < groups.len(),
            None => lane_under(a, lanes(groups@), *p, tolerance_mm, angle_step, 9) is None,
        },
{
    let mut n: i64 = 0;
    while n < 9
        invariant
            0 <= n <= 9,
            a.lawful(),
            small_key(p.key),
            forall|k: int| 0 <= k < groups.len() ==> small_key((#[trigger] groups@[k]).line.key),
            indexed(table@, lanes(groups@)),
            lane_under(a, lanes(groups@), *p, tolerance_mm, angle_step, n as int) is None,
        decreases 9 - n,
    {
        let angle: i64 = normalize_angle_bucket(a, p.key.angle + n / 3 - 1, angle_step);
        let offset: i64 = p.key.offset + n % 3 - 1;
        let key = PathLineKey { angle, offset, rapid: p.key.rapid };
        assert(key == key_near(a, *p, angle_step, n as int));
        let found = find_with_key(a, key, p, groups, table, tolerance_mm, angle_step);
        n = n + 1;
        if found.is_some() {
            proof {
                lemma_lane_under(a, lanes(groups@), *p, tolerance_mm, angle_step, n as int, 9);
            }
            return found;
        }
    }
    None
}

/// What is found under some of the keys is found under all.
proof fn lemma_lane_under<A: Arithmetic>(
    a: &A,
    lanes: Seq<Lane>,
    p: PathProjection,
    tolerance_mm: Scalar,
    angle_step: Scalar,
    n: int,
    m: int,
)
    requires
        n <= m,
        lane_under(a, lanes, p, tolerance_mm, angle_step, n) is Some,
    ensures
        lane_under(a, lanes, p, tolerance_mm, angle_step, m) == lane_under(
            a,
            lanes,
            p,
            tolerance_mm,
            angle_step,
            n,
        ),
    decreases m - n,
{
    if n < m {
        lemma_lane_under(a, lanes, p, tolerance_mm, angle_step, n, m - 1);
    }
}

proof fn lemma_coded_same(l: Seq<Lane>, m: Seq<Lane>, n: int, c: i128)
    requires
        forall|k: int| 0 <= k < n ==> (#[trigger] l[k]).line.key == m[k].line.key,
    ensures
        coded(l, n, c) == coded(m, n, c),
    decreases n,
{
    if n > 0 {
        assert(l[n - 1].line.key == m[n - 1].line.key);
        lemma_coded_same(l, m, n - 1, c);
    }
}

/// Enters the lane `k`, the last one, under the code of its key.
fn enter(table: &mut HashMap<i128, Vec<usize>>, k: usize, key: PathLineKey, Ghost(l): Ghost<Seq<Lane>>)
    requires
        small_key(key),
        l.len() == k + 1,
        l[k as int].line.key == key,
        indexed(old(table)@, l.drop_last()),
    ensures
        indexed(final(table)@, l),
{
    let c: i128 = code(key);
    let ghost before = table@;
    let mut list = match table.remove(&c) {
        Some(list) => list,
        None => Vec::new(),
    };
    list.push(k);
    table.insert(c, list);
    proof {
        assert forall|d: i128|
            #![trigger table@.contains_key(d)]
            #![trigger coded(l, l.len() as int, d)]
            coded(l, l.len() as int, d) == if table@.contains_key(d) {
                table@[d]@
            } else {
                Seq::empty()
            } by {
            lemma_coded_same(l, l.drop_last(), k as int, d);
            assert(before.contains_key(d) || !before.contains_key(d));
            assert(coded(l.drop_last(), k as int, d) == if before.contains_key(d) {
                before[d]@
            } else {
                Seq::empty()
            });
        }
    }
}

/// The most passes over segment `idx`, at least one.
pub open spec fn passes_over<A: Arithmetic>(a: &A, lanes: Seq<Lane>, n: int, idx: int) -> u16
    decreases n,
{
    if n <= 0 {
        1
    } else {
        larger(
            passes_over(a, lanes, n - 1, idx),
            passes_on(a, lanes[n - 1].intervals, idx),
        )
    }
}

/// The counts of all segments.
pub open spec fn seg_passes<A: Arithmetic>(a: &A, segments: Seq<Segment>, tolerance_mm: Scalar) -> Seq<
    u16,
> {
    let tolerance = tolerance_mm.greater(Scalar { bits: LEAST });
    let lanes = lanes_of(a, segments, tolerance, angle_bucket_size(a, tolerance));
    Seq::new(segments.len(), |idx: int| passes_over(a, lanes, lanes.len() as int, idx))
}

/// The largest count of the first `n` segments that come from line `line`, at least one.
pub open spec fn line_passes(segments: Seq<Segment>, counts: Seq<u16>, n: int, line: int) -> u16
    decreases n,
{
    if n <= 0 {
        1
    } else {
        let rest = line_passes(segments, counts, n - 1, line);
        if segments[n - 1].line == line {
            larger(rest, counts[n - 1])
        } else {
            rest
        }
    }
}

fn groups_of<A: Arithmetic>(
    a: &A,
    segments: &[Segment],
    tolerance_mm: Scalar,
    angle_step: Scalar,
) -> (groups: Vec<PathLineGroup>)
    requires
        a.lawful(),
    ensures
        lanes(groups@) == lanes_of(a, segments@, tolerance_mm, angle_step),
        sound(lanes(groups@), segments.len() as int),
{
    let mut groups: Vec<PathLineGroup> = Vec::new();
    let mut table: HashMap<i128, Vec<usize>> = HashMap::new();
    assert(lanes(groups@) == Seq::<Lane>::empty());
    assert(segments@.take(0) == Seq::<Segment>::empty());
    for idx in 0..segments.len()
        invariant
            a.lawful(),
            lanes(groups@) == lanes_of(a, segments@.take(idx as int), tolerance_mm, angle_step),
            sound(lanes(groups@), idx as int),
            indexed(table@, lanes(groups@)),
    {
        let ghost done = lanes(groups@);
        assert(segments@.take(idx + 1).drop_last() == segments@.take(idx as int));
        let segment = &segments[idx];
        if let Some(projection) = PathProjection::new(a, segment, tolerance_mm, angle_step) {
            assert(forall|k: int|
                0 <= k < groups.len() ==> small_key((#[trigger] groups@[k]).line.key)) by {
                assert forall|k: int| 0 <= k < groups.len() implies small_key(
                    (#[trigger] groups@[k]).line.key,
                ) by {
                    assert(small_key(done[k].line.key));
                }
            }
            let k: usize = match find_matching_line_group(
                a,
                &projection,
                &groups,
                &table,
                tolerance_mm,
                angle_step,
            ) {
                Some(k) => k,
                None => {
                    let k: usize = groups.len();
                    groups.push(PathLineGroup { line: projection, intervals: Vec::new() });
                    assert(lanes(groups@) == done.push(
                        Lane { line: projection, intervals: Seq::empty() },
                    ));
                    assert(lanes(groups@).drop_last() == done);
                    enter(&mut table, k, projection.key, Ghost(lanes(groups@)));
                    k
                },
            };
            let ghost with = lanes(groups@);
            let line = groups[k].line;
            assert(with[k as int].line == line);
            if let Some(interval) = PathInterval::new(a, idx, segment, line.dir_x, line.dir_y) {
                let ghost list = groups@[k as int].intervals@;
                groups[k].intervals.push(interval);
                proof {
                    assert(lanes(groups@) == with.update(
                        k as int,
                        Lane { line, intervals: list.push(interval) },
                    ));
                    assert forall|c: i128|
                        #![trigger table@.contains_key(c)]
                        #![trigger coded(lanes(groups@), groups.len() as int, c)]
                        coded(lanes(groups@), groups.len() as int, c) == if table@.contains_key(
                            c,
                        ) {
                            table@[c]@
                        } else {
                            Seq::empty()
                        } by {
                        lemma_coded_same(lanes(groups@), with, groups.len() as int, c);
                        assert(table@.contains_key(c) || !table@.contains_key(c));
                    }
                }
            }
        }
    }
    assert(segments@.take(segments.len() as int) == segments@);
    groups
}

/// For each segment and for each line how often the tool runs over its path: paths are one where
/// they lie on one line up to the tolerance, in either direction and at any height. Rapid moves
/// and cuts are counted apart.
pub fn compute_pass_counts<A: Arithmetic>(
    a: &A,
    segments: &[Segment],
    line_count: usize,
    tolerance_mm: Scalar,
) -> (counts: (Vec<u16>, Vec<u16>))
    requires
        a.lawful(),
    ensures
        counts.0@ == seg_passes(a, segments@, tolerance_mm),
        counts.1@ == Seq::new(
            line_count as nat,
            |line: int|
                line_passes(
                    segments@,
                    seg_passes(a, segments@, tolerance_mm),
                    segments.len() as int,
                    line,
                ),
        ),
{
    let tolerance = normalize_pass_tolerance(tolerance_mm);
    let angle_step = angle_bucket_size(a, tolerance);
    let groups = groups_of(a, segments, tolerance, angle_step);
    let ghost all = lanes(groups@);
    let mut seg_counts: Vec<u16> = vec![1; segments.len()];
    for k in 0..groups.len()
        invariant
            a.lawful(),
            all == lanes(groups@),
            sound(all, segments.len() as int),
            seg_counts.len() == segments.len(),
            forall|idx: int|
                0 <= idx < seg_counts.len() ==> #[trigger] seg_counts@[idx] == passes_over(
                    a,
                    all,
                    k as int,
                    idx,
                ),
    {
        let group = &groups[k];
        proof {
            assert(all[k as int] == (Lane { line: group.line, intervals: group.intervals@ }));
            assert forall|j: int| 0 <= j < group.intervals.len() implies (
            #[trigger] group.intervals@[j]).wf() && group.intervals@[j].segment_index
                < seg_counts.len() by {
                assert(all[k as int].intervals[j].wf());
            }
        }
        apply_path_coverage_counts(a, &group.intervals, &mut seg_counts);
    }
    assert(seg_counts@ == seg_passes(a, segments@, tolerance_mm));
    let mut line_counts: Vec<u16> = vec![1; line_count];
    for idx in 0..segments.len()
        invariant
            seg_counts.len() == segments.len(),
            line_counts.len() == line_count,
            forall|line: int|
                0 <= line < line_count ==> #[trigger] line_counts@[line] == line_passes(
                    segments@,
                    seg_counts@,
                    idx as int,
                    line,
                ),
    {
        let line: usize = segments[idx].line;
        if line < line_counts.len() {
            let count = max_count(line_counts[line], seg_counts[idx]);
            line_counts.set(line, count);
        }
    }
    (seg_counts, line_counts)
}

/// Every segment and every line is passed at least once, and no segment more often than its line.
pub proof fn lemma_pass_counts<A: Arithmetic>(
    a: &A,
    segments: Seq<Segment>,
    tolerance_mm: Scalar,
    idx: int,
    line: int,
)
    requires
        0 <= idx < segments.len(),
    ensures
        seg_passes(a, segments, tolerance_mm)[idx] >= 1,
        line_passes(
            segments,
            seg_passes(a, segments, tolerance_mm),
            segments.len() as int,
            line,
        ) >= 1,
        segments[idx].line == line ==> seg_passes(a, segments, tolerance_mm)[idx] <= line_passes(
            segments,
            seg_passes(a, segments, tolerance_mm),
            segments.len() as int,
            line,
        ),
{
    let tolerance = tolerance_mm.greater(Scalar { bits: LEAST });
    let lanes = lanes_of(a, segments, tolerance, angle_bucket_size(a, tolerance));
    lemma_passes_over(a, lanes, lanes.len() as int, idx);
    lemma_line_passes(
        segments,
        seg_passes(a, segments, tolerance_mm),
        segments.len() as int,
        line,
        idx,
    );
}

proof fn lemma_passes_over<A: Arithmetic>(a: &A, lanes: Seq<Lane>, n: int, idx: int)
    ensures
        passes_over(a, lanes, n, idx) >= 1,
    decreases n,
{
    if n > 0 {
        lemma_passes_over(a, lanes, n - 1, idx);
    }
}

proof fn lemma_line_passes(segments: Seq<Segment>, counts: Seq<u16>, n: int, line: int, idx: int)
    ensures
        line_passes(segments, counts, n, line) >= 1,
        0 <= idx < n && segments[idx].line == line ==> counts[idx] <= line_passes(
            segments,
            counts,
            n,
            line,
        ),
    decreases n,
{
    if n > 0 {
        lemma_line_passes(segments, counts, n - 1, line, idx);
    }
}

/// The difference up to which tolerances are one: the spacing of the singles above one.
pub const EPSILON: u32 = 0x3400_0000;

/// Whether the counts of `job` were made with `tolerance_mm` and for its segments and lines.
pub fn pass_counts_are_current<A: Arithmetic>(a: &A, job: &JobState, tolerance_mm: Scalar) -> (yes:
    bool)
    requires
        a.lawful(),
    ensures
        yes == (minus(a, job.pass_tolerance_mm, tolerance_mm).absolute().at_most(
            Scalar { bits: EPSILON },
        ) && job.seg_pass_counts@.len() == job.segments@.len() && job.line_pass_counts@.len()
            == job.lines@.len()),
{
    minus(a, job.pass_tolerance_mm, tolerance_mm).abs().le(Scalar { bits: EPSILON })
        && job.seg_pass_counts.len() == job.segments.len() && job.line_pass_counts.len()
        == job.lines.len()
}

/// No path of a rapid move is counted with that of a cut: what runs over a lane is all of the
/// lane's kind.
pub proof fn lemma_rapid_apart<A: Arithmetic>(
    a: &A,
    segments: Seq<Segment>,
    tolerance_mm: Scalar,
    angle_step: Scalar,
)
    requires
        segments.len() <= usize::MAX,
    ensures
        forall|k: int, j: int|
            #![trigger lanes_of(a, segments, tolerance_mm, angle_step)[k].intervals[j]]
            {
                let lanes = lanes_of(a, segments, tolerance_mm, angle_step);
                0 <= k < lanes.len() && 0 <= j < lanes[k].intervals.len() ==> {
                    let index = lanes[k].intervals[j].segment_index;
                    index < segments.len() && segments[index as int].rapid
                        == lanes[k].line.key.rapid
                }
            },
    decreases segments.len(),
{
    if segments.len() > 0 {
        let front = segments.drop_last();
        let segment = segments.last();
        lemma_rapid_apart(a, front, tolerance_mm, angle_step);
        let before = lanes_of(a, front, tolerance_mm, angle_step);
        let lanes = lanes_of(a, segments, tolerance_mm, angle_step);
        if let Some(p) = projection_of(a, segment, tolerance_mm, angle_step) {
            lemma_lane_found(a, before, p, tolerance_mm, angle_step, 9);
        }
        assert forall|k: int, j: int|
            #![trigger lanes[k].intervals[j]]
            0 <= k < lanes.len() && 0 <= j < lanes[k].intervals.len() implies {
            let index = lanes[k].intervals[j].segment_index;
            index < segments.len() && segments[index as int].rapid == lanes[k].line.key.rapid
        } by {
            if k < before.len() && j < before[k].intervals.len() {
                assert(before[k].intervals[j].segment_index < front.len());
                assert(lanes[k].intervals[j] == before[k].intervals[j]);
            }
        }
    }
}

pub proof fn lemma_lane_found<A: Arithmetic>(
    a: &A,
    lanes: Seq<Lane>,
    p: PathProjection,
    tolerance_mm: Scalar,
    angle_step: Scalar,
    n: int,
)
    ensures
        lane_under(a, lanes, p, tolerance_mm, angle_step, n) matches Some(k) ==> 0 <= k
            < lanes.len() && fits(a, p, lanes[k].line, tolerance_mm, angle_step),
    decreases n,
{
    if n > 0 {
        lemma_lane_found(a, lanes, p, tolerance_mm, angle_step, n - 1);
        lemma_first_found(
            a,
            lanes,
            lanes.len() as int,
            key_near(a, p, angle_step, n - 1),
            p,
            tolerance_mm,
            angle_step,
        );
    }
}

proof fn lemma_first_found<A: Arithmetic>(
    a: &A,
    lanes: Seq<Lane>,
    n: int,
    key: PathLineKey,
    p: PathProjection,
    tolerance_mm: Scalar,
    angle_step: Scalar,
)
    ensures
        first_with_key(a, lanes, n, key, p, tolerance_mm, angle_step) matches Some(k) ==> 0 <= k
            < n && fits(a, p, lanes[k].line, tolerance_mm, angle_step),
    decreases n,
{
    if n > 0 {
        lemma_first_found(a, lanes, n - 1, key, p, tolerance_mm, angle_step);
    }
}

} // verus!
