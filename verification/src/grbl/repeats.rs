//! What it means that a segment is passed more than once.
use vstd::prelude::*;
use crate::arith::{minus, plus, times, Arithmetic, Scalar};
use crate::cutting::lemma_bounded_part;
use crate::geometry::finite3;
use crate::grbl::coverage::{
    capped, covering, depth_at, distinct, lemma_depth_counts_intervals, overlaps, passes_in,
    passes_on, peak, sorted_ends, spans_between, spans_of, PathCoverageSpan, PathInterval,
    MIN_PATH_LEN_MM,
};
use crate::grbl::passes::{
    angle_bucket_size, bins, bucket_of, first_with_key, fits, interval_of, key_near, lane_under,
    lanes_of, lemma_lane_found, passes_over, projection_of, seg_passes, spec_point_line_distance,
    with_segment, Lane, PathLineKey, PathProjection, LEAST,
};
use crate::grbl::state::{Segment, Vec3};
use crate::measure::{
    extent, gives, lemma_worth_absolute, lemma_worth_negated, lemma_worth_order, near,
    precise, worth,
};

verus! {

/// Whether interval `j` of a lane is the piece of the lane's line that its segment runs over, and the
/// segment is on that line: it is the one that the lane was made for, or it fits the line.
pub open spec fn member<A: Arithmetic>(
    a: &A,
    segments: Seq<Segment>,
    lane: Lane,
    j: int,
    tolerance_mm: Scalar,
    angle_step: Scalar,
) -> bool {
    let i = lane.intervals[j];
    let s = i.segment_index as int;
    let p = projection_of(a, segments[s], tolerance_mm, angle_step);
    &&& s < segments.len()
    &&& interval_of(a, s, segments[s], lane.line.dir_x, lane.line.dir_y) == Some(i)
    &&& p is Some
    &&& p->0 == lane.line || fits(a, p->0, lane.line, tolerance_mm, angle_step)
}

/// Every interval of a lane is that of a segment on the lane's line.
pub proof fn lemma_lanes_hold_members<A: Arithmetic>(
    a: &A,
    segments: Seq<Segment>,
    tolerance_mm: Scalar,
    angle_step: Scalar,
)
    requires
        segments.len() <= usize::MAX,
    ensures
        forall|k: int, j: int|
            #![trigger lanes_of(a, segments, tolerance_mm, angle_step)[k].intervals[j]]
            {
                let lanes = lanes_of(a, segments, tolerance_mm, angle_step);
                0 <= k < lanes.len() && 0 <= j < lanes[k].intervals.len() ==> member(
                    a,
                    segments,
                    lanes[k],
                    j,
                    tolerance_mm,
                    angle_step,
                )
            },
    decreases segments.len(),
{
    if segments.len() > 0 {
        let front = segments.drop_last();
        let segment = segments.last();
        lemma_lanes_hold_members(a, front, tolerance_mm, angle_step);
        let before = lanes_of(a, front, tolerance_mm, angle_step);
        let lanes = lanes_of(a, segments, tolerance_mm, angle_step);
        if let Some(p) = projection_of(a, segment, tolerance_mm, angle_step) {
            lemma_lane_found(a, before, p, tolerance_mm, angle_step, 9);
        }
        assert forall|k: int, j: int|
            #![trigger lanes[k].intervals[j]]
            0 <= k < lanes.len() && 0 <= j < lanes[k].intervals.len() implies member(
            a,
            segments,
            lanes[k],
            j,
            tolerance_mm,
            angle_step,
        ) by {
            if k < before.len() && j < before[k].intervals.len() {
                assert(member(a, front, before[k], j, tolerance_mm, angle_step));
                assert(lanes[k].intervals[j] == before[k].intervals[j]);
                assert(lanes[k].line == before[k].line);
                let s = before[k].intervals[j].segment_index as int;
                assert(front[s] == segments[s]);
            }
        }
    }
}

/// Whether the piece of a line from `start` on is covered by `c` intervals, and the piece up to `end`
/// overlaps `interval`.
pub open spec fn shared<A: Arithmetic>(
    a: &A,
    intervals: Seq<PathInterval>,
    interval: PathInterval,
    start: Scalar,
    end: Scalar,
    c: int,
) -> bool {
    let least = Scalar { bits: MIN_PATH_LEN_MM };
    &&& covering(intervals, start) >= c
    &&& !end.at_most(plus(a, interval.start, least))
    &&& start.below(minus(a, interval.end, least))
    &&& least.at_most(minus(a, end, start))
}

proof fn lemma_peak_found<A: Arithmetic>(
    a: &A,
    spans: Seq<PathCoverageSpan>,
    interval: PathInterval,
) -> (k: int)
    requires
        peak(a, spans, interval) > 0,
    ensures
        0 <= k < spans.len(),
        overlaps(a, spans[k], interval),
        spans[k].count == peak(a, spans, interval),
    decreases spans.len(),
{
    let front = spans.drop_last();
    if overlaps(a, spans.last(), interval) && spans.last().count == peak(a, spans, interval) {
        spans.len() - 1
    } else {
        lemma_peak_found(a, front, interval)
    }
}

proof fn lemma_spans_counted<A: Arithmetic>(
    a: &A,
    intervals: Seq<PathInterval>,
    positions: Seq<Scalar>,
    k: int,
)
    requires
        0 <= k < spans_between(a, intervals, positions).len(),
    ensures
        ({
            let span = spans_between(a, intervals, positions)[k];
            &&& span.count == capped(depth_at(intervals, span.start))
            &&& depth_at(intervals, span.start) > 0
            &&& (Scalar { bits: MIN_PATH_LEN_MM }).at_most(minus(a, span.end, span.start))
        }),
    decreases positions.len(),
{
    let front = spans_between(a, intervals, positions.drop_last());
    if k < front.len() {
        lemma_spans_counted(a, intervals, positions.drop_last(), k);
    }
}

proof fn lemma_passes_found<A: Arithmetic>(
    a: &A,
    intervals: Seq<PathInterval>,
    n: int,
    idx: int,
) -> (j: int)
    requires
        n <= intervals.len(),
        passes_in(a, intervals, n, idx) > 0,
    ensures
        0 <= j < n,
        intervals[j].segment_index == idx,
        peak(a, spans_of(a, intervals), intervals[j]) == passes_in(a, intervals, n, idx),
    decreases n,
{
    let interval = intervals[n - 1];
    if interval.segment_index == idx && peak(a, spans_of(a, intervals), interval) == passes_in(
        a,
        intervals,
        n,
        idx,
    ) {
        n - 1
    } else {
        lemma_passes_found(a, intervals, n - 1, idx)
    }
}

proof fn lemma_lane_of_passes<A: Arithmetic>(a: &A, lanes: Seq<Lane>, n: int, idx: int) -> (k: int)
    requires
        n <= lanes.len(),
        passes_over(a, lanes, n, idx) > 1,
    ensures
        0 <= k < n,
        passes_on(a, lanes[k].intervals, idx) == passes_over(a, lanes, n, idx),
    decreases n,
{
    if passes_on(a, lanes[n - 1].intervals, idx) == passes_over(a, lanes, n, idx) {
        n - 1
    } else {
        lemma_lane_of_passes(a, lanes, n - 1, idx)
    }
}

/// A segment that is counted as passed more than once is passed that often: on its line there is a
/// piece that it runs over and that as many segments of the same line cover. It is no shorter than
/// the least length.
pub proof fn lemma_passes_are_shared<A: Arithmetic>(
    a: &A,
    segments: Seq<Segment>,
    tolerance_mm: Scalar,
    idx: int,
) -> (r: (Lane, int, Scalar, Scalar))
    requires
        segments.len() <= usize::MAX,
        0 <= idx < segments.len(),
        seg_passes(a, segments, tolerance_mm)[idx] > 1,
    ensures
        ({
            let (lane, j, start, end) = r;
            let tolerance = tolerance_mm.greater(Scalar { bits: LEAST });
            let step = angle_bucket_size(a, tolerance);
            let c = seg_passes(a, segments, tolerance_mm)[idx] as int;
            &&& forall|i: int|
                0 <= i < lane.intervals.len() ==> #[trigger] member(
                    a,
                    segments,
                    lane,
                    i,
                    tolerance,
                    step,
                )
            &&& 0 <= j < lane.intervals.len()
            &&& lane.intervals[j].segment_index == idx
            &&& shared(a, lane.intervals, lane.intervals[j], start, end, c)
        }),
{
    let tolerance = tolerance_mm.greater(Scalar { bits: LEAST });
    let step = angle_bucket_size(a, tolerance);
    let lanes = lanes_of(a, segments, tolerance, step);
    lemma_lanes_hold_members(a, segments, tolerance, step);
    let k = lemma_lane_of_passes(a, lanes, lanes.len() as int, idx);
    let lane = lanes[k];
    let intervals = lane.intervals;
    let j = lemma_passes_found(a, intervals, intervals.len() as int, idx);
    let positions = distinct(sorted_ends(intervals));
    let spans = spans_of(a, intervals);
    let s = lemma_peak_found(a, spans, intervals[j]);
    lemma_spans_counted(a, intervals, positions, s);
    assert forall|i: int| 0 <= i < intervals.len() implies #[trigger] member(
        a,
        segments,
        lane,
        i,
        tolerance,
        step,
    ) by {
        assert(lanes[k].intervals[i] == intervals[i]);
    }
    assert forall|i: int| 0 <= i < intervals.len() implies (#[trigger] intervals[i]).wf() by {
        assert(member(a, segments, lane, i, tolerance, step));
    }
    lemma_depth_counts_intervals(intervals, spans[s].start);
    (lane, j, spans[s].start, spans[s].end)
}

/// How far `(x, y)` is to the left of the line through the origin with the direction of `line`.
pub open spec fn offside(line: PathProjection, x: real, y: real) -> real {
    y * worth(line.dir_x) - x * worth(line.dir_y)
}

/// How far a point is from a line, as it is computed.
proof fn lemma_line_distance<A: Arithmetic>(
    a: &A,
    p: Vec3,
    line: PathProjection,
    m: real,
    bound: real,
    eps: real,
)
    requires
        precise(a, bound, eps),
        finite3(p),
        extent(worth(p.x)) <= m && extent(worth(p.y)) <= m,
        line.dir_x.finite() && line.dir_y.finite() && line.offset.finite(),
        extent(worth(line.dir_x)) <= 1 as real && extent(worth(line.dir_y)) <= 1 as real,
        extent(worth(line.offset)) <= 3 as real * m,
        0 as real <= eps <= 1 as real,
        10 as real * m + 10 as real <= bound,
    ensures
        gives(
            spec_point_line_distance(a, p, line),
            offside(line, worth(p.x), worth(p.y)) - worth(line.offset),
            4 as real * eps,
        ),
{
    let (x, y) = (worth(p.x), worth(p.y));
    let (c, s) = (worth(line.dir_x), worth(line.dir_y));
    lemma_worth_negated(line.dir_y);
    let (u, v) = (times(a, p.x, line.dir_y.negated()), times(a, p.y, line.dir_x));
    assert(x * (-s) == -(x * s)) by (nonlinear_arith);
    lemma_bounded_part(x, s, m);
    lemma_bounded_part(y, c, m);
    assert(gives(u, x * (-s), eps));
    assert(gives(v, y * c, eps));
    let w = plus(a, u, v);
    assert(gives(w, worth(u) + worth(v), eps));
    assert(gives(minus(a, w, line.offset), worth(w) - worth(line.offset), eps));
}

/// The ends of a segment that fits a line are no further from it than the tolerance, up to rounding,
/// and it is a rapid move exactly if the line is one of rapid moves.
pub proof fn lemma_fit_means_near<A: Arithmetic>(
    a: &A,
    p: PathProjection,
    line: PathProjection,
    tolerance_mm: Scalar,
    angle_step: Scalar,
    m: real,
    bound: real,
    eps: real,
)
    requires
        precise(a, bound, eps),
        fits(a, p, line, tolerance_mm, angle_step),
        tolerance_mm.finite(),
        finite3(p.start) && finite3(p.end),
        extent(worth(p.start.x)) <= m && extent(worth(p.start.y)) <= m,
        extent(worth(p.end.x)) <= m && extent(worth(p.end.y)) <= m,
        line.dir_x.finite() && line.dir_y.finite() && line.offset.finite(),
        extent(worth(line.dir_x)) <= 1 as real && extent(worth(line.dir_y)) <= 1 as real,
        extent(worth(line.offset)) <= 3 as real * m,
        0 as real <= eps <= 1 as real,
        10 as real * m + 10 as real <= bound,
    ensures
        p.key.rapid == line.key.rapid,
        near(
            offside(line, worth(p.start.x), worth(p.start.y)),
            worth(line.offset),
            worth(tolerance_mm) + 4 as real * eps,
        ),
        near(
            offside(line, worth(p.end.x), worth(p.end.y)),
            worth(line.offset),
            worth(tolerance_mm) + 4 as real * eps,
        ),
{
    lemma_line_distance(a, p.start, line, m, bound, eps);
    lemma_line_distance(a, p.end, line, m, bound, eps);
    let d = spec_point_line_distance(a, p.start, line);
    let e = spec_point_line_distance(a, p.end, line);
    lemma_worth_absolute(d);
    lemma_worth_absolute(e);
    lemma_worth_order(d.absolute(), tolerance_mm);
    lemma_worth_order(e.absolute(), tolerance_mm);
}

/// The interval of a segment on a line reaches from the one to the other of its ends, measured along
/// the line, up to rounding: whichever way it runs.
pub proof fn lemma_interval_spans_segment<A: Arithmetic>(
    a: &A,
    index: int,
    segment: Segment,
    dir_x: Scalar,
    dir_y: Scalar,
    m: real,
    bound: real,
    eps: real,
)
    requires
        precise(a, bound, eps),
        finite3(segment.start) && finite3(segment.end),
        extent(worth(segment.start.x)) <= m && extent(worth(segment.start.y)) <= m,
        extent(worth(segment.end.x)) <= m && extent(worth(segment.end.y)) <= m,
        dir_x.finite() && dir_y.finite(),
        extent(worth(dir_x)) <= 1 as real && extent(worth(dir_y)) <= 1 as real,
        0 as real <= eps <= 1 as real,
        10 as real * m + 10 as real <= bound,
        interval_of(a, index, segment, dir_x, dir_y) is Some,
    ensures
        ({
            let i = interval_of(a, index, segment, dir_x, dir_y)->0;
            let p = worth(segment.start.x) * worth(dir_x) + worth(segment.start.y) * worth(dir_y);
            let q = worth(segment.end.x) * worth(dir_x) + worth(segment.end.y) * worth(dir_y);
            let d = 3 as real * eps;
            &&& gives(i.start, if p <= q {
                p
            } else {
                q
            }, d)
            &&& gives(i.end, if p <= q {
                q
            } else {
                p
            }, d)
        }),
{
    lemma_along(a, segment.start, dir_x, dir_y, m, bound, eps);
    lemma_along(a, segment.end, dir_x, dir_y, m, bound, eps);
    let s = segment.start;
    let e = segment.end;
    let p = plus(a, times(a, s.x, dir_x), times(a, s.y, dir_y));
    let q = plus(a, times(a, e.x, dir_x), times(a, e.y, dir_y));
    lemma_worth_order(p, q);
    lemma_worth_order(q, p);
}

proof fn lemma_along<A: Arithmetic>(
    a: &A,
    p: Vec3,
    dir_x: Scalar,
    dir_y: Scalar,
    m: real,
    bound: real,
    eps: real,
)
    requires
        precise(a, bound, eps),
        finite3(p),
        extent(worth(p.x)) <= m && extent(worth(p.y)) <= m,
        dir_x.finite() && dir_y.finite(),
        extent(worth(dir_x)) <= 1 as real && extent(worth(dir_y)) <= 1 as real,
        0 as real <= eps <= 1 as real,
        10 as real * m + 10 as real <= bound,
    ensures
        gives(
            plus(a, times(a, p.x, dir_x), times(a, p.y, dir_y)),
            worth(p.x) * worth(dir_x) + worth(p.y) * worth(dir_y),
            3 as real * eps,
        ),
{
    let (x, y) = (worth(p.x), worth(p.y));
    let (c, s) = (worth(dir_x), worth(dir_y));
    lemma_bounded_part(x, c, m);
    lemma_bounded_part(y, s, m);
    let (u, v) = (times(a, p.x, dir_x), times(a, p.y, dir_y));
    assert(gives(u, x * c, eps));
    assert(gives(v, y * s, eps));
    assert(gives(plus(a, u, v), worth(u) + worth(v), eps));
}

proof fn lemma_peak_least<A: Arithmetic>(
    a: &A,
    spans: Seq<PathCoverageSpan>,
    interval: PathInterval,
    k: int,
)
    requires
        0 <= k < spans.len(),
        overlaps(a, spans[k], interval),
    ensures
        peak(a, spans, interval) >= spans[k].count,
    decreases spans.len(),
{
    if k < spans.len() - 1 {
        lemma_peak_least(a, spans.drop_last(), interval, k);
    }
}

proof fn lemma_passes_least<A: Arithmetic>(
    a: &A,
    intervals: Seq<PathInterval>,
    n: int,
    idx: int,
    j: int,
)
    requires
        0 <= j < n <= intervals.len(),
        intervals[j].segment_index == idx,
    ensures
        passes_in(a, intervals, n, idx) >= peak(a, spans_of(a, intervals), intervals[j]),
    decreases n,
{
    if j < n - 1 {
        lemma_passes_least(a, intervals, n - 1, idx, j);
    }
}

proof fn lemma_over_least<A: Arithmetic>(a: &A, lanes: Seq<Lane>, n: int, idx: int, k: int)
    requires
        0 <= k < n <= lanes.len(),
    ensures
        passes_over(a, lanes, n, idx) >= passes_on(a, lanes[k].intervals, idx),
    decreases n,
{
    if k < n - 1 {
        lemma_over_least(a, lanes, n - 1, idx, k);
    }
}

proof fn lemma_span_found<A: Arithmetic>(
    a: &A,
    intervals: Seq<PathInterval>,
    positions: Seq<Scalar>,
    n: int,
) -> (k: int)
    requires
        0 <= n < positions.len() - 1,
        (Scalar { bits: MIN_PATH_LEN_MM }).at_most(minus(a, positions[n + 1], positions[n])),
        depth_at(intervals, positions[n]) > 0,
    ensures
        ({
            let spans = spans_between(a, intervals, positions);
            &&& 0 <= k < spans.len()
            &&& spans[k].start == positions[n]
            &&& spans[k].end == positions[n + 1]
            &&& spans[k].count == capped(depth_at(intervals, positions[n]))
        }),
    decreases positions.len(),
{
    let front = positions.drop_last();
    let spans = spans_between(a, intervals, positions);
    let before = spans_between(a, intervals, front);
    if n == positions.len() - 2 {
        assert(spans.last().start == positions[n]);
        spans.len() - 1
    } else {
        assert(front[n] == positions[n] && front[n + 1] == positions[n + 1]);
        let k = lemma_span_found(a, intervals, front, n);
        assert(spans[k] == before[k]);
        k
    }
}

/// What is passed often is counted: where segments of one line cover the piece between two
/// neighbouring ends, and the piece is long enough and overlaps that of a segment, the segment is
/// counted as passed at least that often.
pub proof fn lemma_shared_is_counted<A: Arithmetic>(
    a: &A,
    segments: Seq<Segment>,
    tolerance_mm: Scalar,
    idx: int,
    k: int,
    j: int,
    n: int,
)
    requires
        segments.len() <= usize::MAX,
        0 <= idx < segments.len(),
        ({
            let tolerance = tolerance_mm.greater(Scalar { bits: LEAST });
            let lanes = lanes_of(a, segments, tolerance, angle_bucket_size(a, tolerance));
            let intervals = lanes[k].intervals;
            let ends = distinct(sorted_ends(intervals));
            &&& 0 <= k < lanes.len()
            &&& 0 <= j < intervals.len()
            &&& intervals.len() >= 2
            &&& intervals[j].segment_index == idx
            &&& 0 <= n < ends.len() - 1
            &&& shared(a, intervals, intervals[j], ends[n], ends[n + 1], 1)
        }),
    ensures
        ({
            let tolerance = tolerance_mm.greater(Scalar { bits: LEAST });
            let lanes = lanes_of(a, segments, tolerance, angle_bucket_size(a, tolerance));
            let intervals = lanes[k].intervals;
            let ends = distinct(sorted_ends(intervals));
            let c = covering(intervals, ends[n]);
            seg_passes(a, segments, tolerance_mm)[idx] >= if c > 0xffff {
                0xffff
            } else {
                c
            }
        }),
{
    let tolerance = tolerance_mm.greater(Scalar { bits: LEAST });
    let step = angle_bucket_size(a, tolerance);
    let lanes = lanes_of(a, segments, tolerance, step);
    let intervals = lanes[k].intervals;
    let ends = distinct(sorted_ends(intervals));
    lemma_lanes_hold_members(a, segments, tolerance, step);
    assert forall|i: int| 0 <= i < intervals.len() implies (#[trigger] intervals[i]).wf() by {
        assert(lanes[k].intervals[i] == intervals[i]);
        assert(member(a, segments, lanes[k], i, tolerance, step));
    }
    lemma_depth_counts_intervals(intervals, ends[n]);
    let s = lemma_span_found(a, intervals, ends, n);
    lemma_peak_least(a, spans_of(a, intervals), intervals[j], s);
    lemma_passes_least(a, intervals, intervals.len() as int, idx, j);
    lemma_over_least(a, lanes, lanes.len() as int, idx, k);
}

proof fn lemma_key_found<A: Arithmetic>(
    a: &A,
    lanes: Seq<Lane>,
    n: int,
    key: PathLineKey,
    p: PathProjection,
    tolerance_mm: Scalar,
    angle_step: Scalar,
    k: int,
)
    requires
        0 <= k < n <= lanes.len(),
        lanes[k].line.key == key,
        fits(a, p, lanes[k].line, tolerance_mm, angle_step),
    ensures
        first_with_key(a, lanes, n, key, p, tolerance_mm, angle_step) is Some,
    decreases n,
{
    if k < n - 1 {
        lemma_key_found(a, lanes, n - 1, key, p, tolerance_mm, angle_step, k);
    }
}

proof fn lemma_under_grows<A: Arithmetic>(
    a: &A,
    lanes: Seq<Lane>,
    p: PathProjection,
    tolerance_mm: Scalar,
    angle_step: Scalar,
    n: int,
    m: int,
)
    requires
        0 <= n <= m,
        lane_under(a, lanes, p, tolerance_mm, angle_step, n) is Some,
    ensures
        lane_under(a, lanes, p, tolerance_mm, angle_step, m) is Some,
    decreases m - n,
{
    if n < m {
        lemma_under_grows(a, lanes, p, tolerance_mm, angle_step, n + 1, m);
    }
}

/// The key in the middle of those around a segment's own is its own.
proof fn lemma_own_key<A: Arithmetic>(
    a: &A,
    segment: Segment,
    tolerance_mm: Scalar,
    angle_step: Scalar,
    p: PathProjection,
)
    requires
        projection_of(a, segment, tolerance_mm, angle_step) == Some(p),
    ensures
        key_near(a, p, angle_step, 4) == p.key,
{
    let n = bins(a, angle_step) as int;
    if n > 0 {
        assert forall|b: int| #![trigger b % n] 0 <= b % n < n && (b % n) % n == b % n by {
            vstd::arithmetic::div_mod::lemma_mod_bound(b, n);
            vstd::arithmetic::div_mod::lemma_small_mod((b % n) as nat, n as nat);
        }
    }
    assert(p.key.angle == bucket_of(a, p.key.angle as int, angle_step));
}

/// A segment whose line is already there joins it: where a lane has the key of the segment and the
/// segment fits its line, no lane is made, and the piece that the segment runs over is added to one
/// that it fits.
pub proof fn lemma_fitting_segment_joins<A: Arithmetic>(
    a: &A,
    lanes: Seq<Lane>,
    index: int,
    segment: Segment,
    p: PathProjection,
    tolerance_mm: Scalar,
    angle_step: Scalar,
    k: int,
) -> (j: int)
    requires
        projection_of(a, segment, tolerance_mm, angle_step) == Some(p),
        0 <= k < lanes.len(),
        lanes[k].line.key == p.key,
        fits(a, p, lanes[k].line, tolerance_mm, angle_step),
    ensures
        ({
            let after = with_segment(a, lanes, index, segment, tolerance_mm, angle_step);
            &&& after.len() == lanes.len()
            &&& 0 <= j < lanes.len()
            &&& fits(a, p, lanes[j].line, tolerance_mm, angle_step)
            &&& forall|i: int|
                0 <= i < lanes.len() ==> (#[trigger] after[i]).line == lanes[i].line && (i != j
                    ==> after[i] == lanes[i])
            &&& after[j].intervals == match interval_of(
                a,
                index,
                segment,
                lanes[j].line.dir_x,
                lanes[j].line.dir_y,
            ) {
                Some(i) => lanes[j].intervals.push(i),
                None => lanes[j].intervals,
            }
        }),
{
    lemma_own_key(a, segment, tolerance_mm, angle_step, p);
    lemma_key_found(a, lanes, lanes.len() as int, p.key, p, tolerance_mm, angle_step, k);
    assert(lane_under(a, lanes, p, tolerance_mm, angle_step, 5) is Some);
    lemma_under_grows(a, lanes, p, tolerance_mm, angle_step, 5, 9);
    lemma_lane_found(a, lanes, p, tolerance_mm, angle_step, 9);
    lane_under(a, lanes, p, tolerance_mm, angle_step, 9)->0
}

/// A segment whose line is not there yet makes a lane of its own.
pub proof fn lemma_other_segment_apart<A: Arithmetic>(
    a: &A,
    lanes: Seq<Lane>,
    index: int,
    segment: Segment,
    p: PathProjection,
    tolerance_mm: Scalar,
    angle_step: Scalar,
)
    requires
        projection_of(a, segment, tolerance_mm, angle_step) == Some(p),
        forall|k: int|
            0 <= k < lanes.len() ==> !fits(
                a,
                p,
                (#[trigger] lanes[k]).line,
                tolerance_mm,
                angle_step,
            ),
    ensures
        ({
            let after = with_segment(a, lanes, index, segment, tolerance_mm, angle_step);
            &&& after.len() == lanes.len() + 1
            &&& after.last().line == p
            &&& after.take(lanes.len() as int) == lanes
            &&& after.last().intervals.len() <= 1
        }),
{
    lemma_lane_found(a, lanes, p, tolerance_mm, angle_step, 9);
}

/// The line along a segment goes through its start, up to rounding, and is one of rapid moves exactly
/// if the segment is a rapid move.
pub proof fn lemma_line_through_start<A: Arithmetic>(
    a: &A,
    segment: Segment,
    tolerance_mm: Scalar,
    angle_step: Scalar,
    m: real,
    bound: real,
    eps: real,
)
    requires
        precise(a, bound, eps),
        finite3(segment.start),
        extent(worth(segment.start.x)) <= m && extent(worth(segment.start.y)) <= m,
        0 as real <= eps <= 1 as real,
        10 as real * m + 10 as real <= bound,
        projection_of(a, segment, tolerance_mm, angle_step) matches Some(p) && p.dir_x.finite()
            && p.dir_y.finite() && extent(worth(p.dir_x)) <= 1 as real && extent(worth(p.dir_y))
            <= 1 as real,
    ensures
        ({
            let p = projection_of(a, segment, tolerance_mm, angle_step)->0;
            &&& gives(
                p.offset,
                offside(p, worth(segment.start.x), worth(segment.start.y)),
                3 as real * eps,
            )
            &&& p.key.rapid == segment.rapid
            &&& p.start == segment.start
            &&& p.end == segment.end
        }),
{
    let p = projection_of(a, segment, tolerance_mm, angle_step)->0;
    let (x, y) = (worth(segment.start.x), worth(segment.start.y));
    let (c, s) = (worth(p.dir_x), worth(p.dir_y));
    lemma_worth_negated(p.dir_y);
    assert(x * (-s) == -(x * s)) by (nonlinear_arith);
    lemma_bounded_part(x, s, m);
    lemma_bounded_part(y, c, m);
    let (u, v) = (times(a, segment.start.x, p.dir_y.negated()), times(a, segment.start.y, p.dir_x));
    assert(gives(u, x * (-s), eps));
    assert(gives(v, y * c, eps));
    assert(gives(plus(a, u, v), worth(u) + worth(v), eps));
}

} // verus!
