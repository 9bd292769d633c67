//! How often the pieces of a line are run over.
use vstd::prelude::*;
use vstd::relations::{sorted_by, total_ordering};
use vstd::seq_lib::{lemma_multiset_commutative, lemma_sorted_unique};
use crate::arith::{minus, plus, Arithmetic, Scalar};
use crate::grbl::range_max::{larger, largest, max_count, RangeMax};

verus! {

/// The length under which a piece of a path does not count, 0.001.
pub const MIN_PATH_LEN_MM: u32 = 0x3a83_126f;

/// A piece of a line that a segment runs over.
#[derive(Clone, Copy, Debug)]
pub struct PathInterval {
    pub segment_index: usize,
    pub start: Scalar,
    pub end: Scalar,
}

impl PathInterval {
    /// The ends are numbers, and the start is not behind the end.
    pub open spec fn wf(self) -> bool {
        self.start.at_most(self.end)
    }
}

/// A piece of a line between two neighbouring ends of intervals, and how many intervals cover it.
#[derive(Clone, Copy, Debug)]
pub struct PathCoverageSpan {
    pub start: Scalar,
    pub end: Scalar,
    pub count: u16,
}

/// The total order of numbers.
pub open spec fn ascending() -> spec_fn(Scalar, Scalar) -> bool {
    |x: Scalar, y: Scalar| x.total_rank() <= y.total_rank()
}

pub open spec fn starts(intervals: Seq<PathInterval>) -> Seq<Scalar> {
    intervals.map_values(|i: PathInterval| i.start)
}

pub open spec fn stops(intervals: Seq<PathInterval>) -> Seq<Scalar> {
    intervals.map_values(|i: PathInterval| i.end)
}

/// All ends of intervals in ascending order.
pub open spec fn sorted_ends(intervals: Seq<PathInterval>) -> Seq<Scalar> {
    (starts(intervals) + stops(intervals)).sort_by(ascending())
}

/// `s` without the numbers that equal the one kept before them.
pub open spec fn distinct(s: Seq<Scalar>) -> Seq<Scalar>
    decreases s.len(),
{
    if s.len() == 0 {
        s
    } else {
        let front = distinct(s.drop_last());
        if front.len() > 0 && s.last().equals(front.last()) {
            front
        } else {
            front.push(s.last())
        }
    }
}

/// How many of `s` are not behind `p`.
pub open spec fn reached(s: Seq<Scalar>, p: Scalar) -> int
    decreases s.len(),
{
    if s.len() == 0 {
        0
    } else {
        reached(s.drop_last(), p) + if s.last().rank() <= p.rank() {
            1int
        } else {
            0
        }
    }
}

/// How many intervals have started at `p` and not stopped.
pub open spec fn depth_at(intervals: Seq<PathInterval>, p: Scalar) -> int {
    reached(starts(intervals), p) - reached(stops(intervals), p)
}

/// `n` as a count; the largest count if it is more.
pub open spec fn capped(n: int) -> u16 {
    if n > 0xffff {
        0xffff
    } else {
        n as u16
    }
}

/// The covered spans between neighbouring positions.
pub open spec fn spans_between<A: Arithmetic>(
    a: &A,
    intervals: Seq<PathInterval>,
    positions: Seq<Scalar>,
) -> Seq<PathCoverageSpan>
    decreases positions.len(),
{
    if positions.len() < 2 {
        Seq::empty()
    } else {
        let front = spans_between(a, intervals, positions.drop_last());
        let start = positions[positions.len() - 2];
        let end = positions.last();
        let depth = depth_at(intervals, start);
        if (Scalar { bits: MIN_PATH_LEN_MM }).at_most(minus(a, end, start)) && depth > 0 {
            front.push(PathCoverageSpan { start, end, count: capped(depth) })
        } else {
            front
        }
    }
}

/// The covered spans of a line.
pub open spec fn spans_of<A: Arithmetic>(a: &A, intervals: Seq<PathInterval>) -> Seq<
    PathCoverageSpan,
> {
    spans_between(a, intervals, distinct(sorted_ends(intervals)))
}

/// Whether the span and the interval overlap by more than the least length at either end.
pub open spec fn overlaps<A: Arithmetic>(
    a: &A,
    span: PathCoverageSpan,
    interval: PathInterval,
) -> bool {
    let least = Scalar { bits: MIN_PATH_LEN_MM };
    &&& !span.end.at_most(plus(a, interval.start, least))
    &&& span.start.below(minus(a, interval.end, least))
}

/// The largest count of the spans that overlap the interval.
pub open spec fn peak<A: Arithmetic>(
    a: &A,
    spans: Seq<PathCoverageSpan>,
    interval: PathInterval,
) -> u16
    decreases spans.len(),
{
    if spans.len() == 0 {
        0
    } else {
        let rest = peak(a, spans.drop_last(), interval);
        if overlaps(a, spans.last(), interval) {
            larger(rest, spans.last().count)
        } else {
            rest
        }
    }
}

proof fn lemma_ascending()
    ensures
        total_ordering(ascending()),
{
    assert forall|x: Scalar, y: Scalar|
        #[trigger] ascending()(x, y) && #[trigger] ascending()(y, x) implies x == y by {
        assert(x.bits == y.bits);
    }
}

/// The numbers of `v` in ascending order.
fn sort(v: Vec<Scalar>) -> (out: Vec<Scalar>)
    ensures
        out@ == v@.sort_by(ascending()),
        sorted_by(out@, ascending()),
        out@.to_multiset() == v@.to_multiset(),
{
    let n: usize = v.len();
    let out = sort_range(&v, 0, n);
    proof {
        assert(v@.subrange(0, n as int) == v@);
        lemma_ascending();
        v@.lemma_sort_by_ensures(ascending());
        lemma_sorted_unique(out@, v@.sort_by(ascending()), ascending());
    }
    out
}

fn before(x: Scalar, y: Scalar) -> (yes: bool)
    ensures
        yes == (x.total_rank() <= y.total_rank()),
{
    if x.is_negative() {
        !y.is_negative() || x.bits >= y.bits
    } else {
        !y.is_negative() && x.bits <= y.bits
    }
}

fn sort_range(v: &Vec<Scalar>, from: usize, to: usize) -> (out: Vec<Scalar>)
    requires
        from <= to <= v.len(),
    ensures
        sorted_by(out@, ascending()),
        out@.to_multiset() == v@.subrange(from as int, to as int).to_multiset(),
    decreases to - from,
{
    if to - from <= 1 {
        let mut out: Vec<Scalar> = Vec::new();
        if from < to {
            out.push(v[from]);
        }
        assert(out@ == v@.subrange(from as int, to as int));
        return out;
    }
    let mid: usize = from + (to - from) / 2;
    let left = sort_range(v, from, mid);
    let right = sort_range(v, mid, to);
    proof {
        let l = v@.subrange(from as int, mid as int);
        let r = v@.subrange(mid as int, to as int);
        assert(l + r == v@.subrange(from as int, to as int));
        lemma_multiset_commutative(l, r);
        lemma_multiset_commutative(left@, right@);
    }
    merge(&left, &right)
}

fn merge(left: &Vec<Scalar>, right: &Vec<Scalar>) -> (out: Vec<Scalar>)
    requires
        sorted_by(left@, ascending()),
        sorted_by(right@, ascending()),
    ensures
        sorted_by(out@, ascending()),
        out@.to_multiset() == (left@ + right@).to_multiset(),
{
    let mut out: Vec<Scalar> = Vec::new();
    let mut i: usize = 0;
    let mut j: usize = 0;
    assert(left@.take(0) + right@.take(0) == Seq::<Scalar>::empty());
    while i < left.len() || j < right.len()
        invariant
            i <= left.len(),
            j <= right.len(),
            sorted_by(left@, ascending()),
            sorted_by(right@, ascending()),
            sorted_by(out@, ascending()),
            out@.to_multiset() == (left@.take(i as int) + right@.take(j as int)).to_multiset(),
            forall|k: int|
                0 <= k < out.len() && i < left.len() ==> (#[trigger] out@[k]).total_rank()
                    <= left@[i as int].total_rank(),
            forall|k: int|
                0 <= k < out.len() && j < right.len() ==> (#[trigger] out@[k]).total_rank()
                    <= right@[j as int].total_rank(),
        decreases left.len() - i + right.len() - j,
    {
        let ghost old_l = left@.take(i as int);
        let ghost old_r = right@.take(j as int);
        proof {
            lemma_multiset_commutative(old_l, old_r);
        }
        let ghost before_out = out@;
        if j >= right.len() || (i < left.len() && before(left[i], right[j])) {
            out.push(left[i]);
            proof {
                assert(left@.take(i + 1) == old_l.push(left@[i as int]));
                before_out.to_multiset_ensures();
                old_l.to_multiset_ensures();
                lemma_multiset_commutative(left@.take(i + 1), old_r);
                assert(out@.to_multiset() =~= (left@.take(i + 1) + old_r).to_multiset());
                assert(i + 1 < left.len() ==> ascending()(left@[i as int], left@[i + 1]));
            }
            i = i + 1;
        } else {
            out.push(right[j]);
            proof {
                assert(right@.take(j + 1) == old_r.push(right@[j as int]));
                before_out.to_multiset_ensures();
                old_r.to_multiset_ensures();
                lemma_multiset_commutative(old_l, right@.take(j + 1));
                assert(out@.to_multiset() =~= (old_l + right@.take(j + 1)).to_multiset());
                assert(j + 1 < right.len() ==> ascending()(right@[j as int], right@[j + 1]));
            }
            j = j + 1;
        }
    }
    assert(left@.take(left.len() as int) == left@);
    assert(right@.take(right.len() as int) == right@);
    out
}

/// Counting does not depend on the order.
proof fn lemma_reached_multiset(s: Seq<Scalar>, p: Scalar)
    ensures
        reached(s, p) == s.to_multiset().filter(|x: Scalar| x.rank() <= p.rank()).len(),
        0 <= reached(s, p) <= s.len(),
    decreases s.len(),
{
    let test = |x: Scalar| x.rank() <= p.rank();
    if s.len() == 0 {
        s.to_multiset_ensures();
        assert(s.to_multiset().filter(test) =~= vstd::multiset::Multiset::empty());
    } else {
        let front = s.drop_last();
        lemma_reached_multiset(front, p);
        front.to_multiset_ensures();
        assert(front.push(s.last()) == s);
        if test(s.last()) {
            assert(s.to_multiset().filter(test) =~= front.to_multiset().filter(test).insert(
                s.last(),
            ));
        } else {
            assert(s.to_multiset().filter(test) =~= front.to_multiset().filter(test));
        }
    }
}

/// In a sorted list those that are not behind `p` stand first.
proof fn lemma_reached_sorted(s: Seq<Scalar>, p: Scalar, n: int)
    requires
        0 <= n <= s.len(),
        forall|k: int| 0 <= k < n ==> (#[trigger] s[k]).rank() <= p.rank(),
        forall|k: int| n <= k < s.len() ==> (#[trigger] s[k]).rank() > p.rank(),
    ensures
        reached(s, p) == n,
    decreases s.len(),
{
    if s.len() > 0 {
        if n == s.len() {
            lemma_reached_sorted(s.drop_last(), p, n - 1);
        } else {
            lemma_reached_sorted(s.drop_last(), p, n);
        }
    }
}

/// The first position from `from` on in the sorted list `s` that is behind `p`.
fn pass(s: &Vec<Scalar>, from: usize, p: Scalar) -> (n: usize)
    requires
        from <= s.len(),
        sorted_by(s@, ascending()),
        forall|k: int| 0 <= k < from ==> (#[trigger] s@[k]).rank() <= p.rank(),
    ensures
        n == reached(s@, p),
        n <= s.len(),
        forall|k: int| 0 <= k < n ==> (#[trigger] s@[k]).rank() <= p.rank(),
{
    let mut n: usize = from;
    while n < s.len() && s[n].place() <= p.place()
        invariant
            n <= s.len(),
            forall|k: int| 0 <= k < n ==> (#[trigger] s@[k]).rank() <= p.rank(),
        decreases s.len() - n,
    {
        n = n + 1;
    }
    proof {
        assert forall|k: int| n <= k < s.len() implies (#[trigger] s@[k]).rank() > p.rank() by {
            assert(k > n ==> ascending()(s@[n as int], s@[k]));
        }
        lemma_reached_sorted(s@, p, n as int);
    }
    n
}

fn covered_spans<A: Arithmetic>(a: &A, intervals: &Vec<PathInterval>) -> (spans: Vec<
    PathCoverageSpan,
>)
    requires
        a.lawful(),
    ensures
        spans@ == spans_of(a, intervals@),
{
    let mut first: Vec<Scalar> = Vec::new();
    let mut last: Vec<Scalar> = Vec::new();
    let mut all: Vec<Scalar> = Vec::new();
    for i in 0..intervals.len()
        invariant
            first@ == starts(intervals@).take(i as int),
            last@ == stops(intervals@).take(i as int),
            all@ == starts(intervals@).take(i as int),
    {
        first.push(intervals[i].start);
        last.push(intervals[i].end);
        all.push(intervals[i].start);
        assert(starts(intervals@).take(i + 1) == starts(intervals@).take(i as int).push(
            intervals@[i as int].start,
        ));
        assert(stops(intervals@).take(i + 1) == stops(intervals@).take(i as int).push(
            intervals@[i as int].end,
        ));
    }
    assert(starts(intervals@).take(intervals.len() as int) == starts(intervals@));
    assert(stops(intervals@).take(intervals.len() as int) == stops(intervals@));
    for i in 0..last.len()
        invariant
            last@ == stops(intervals@),
            all@ == starts(intervals@) + stops(intervals@).take(i as int),
    {
        all.push(last[i]);
        assert(stops(intervals@).take(i + 1) == stops(intervals@).take(i as int).push(
            last@[i as int],
        ));
    }
    assert(stops(intervals@).take(last.len() as int) == stops(intervals@));
    let first = sort(first);
    let last = sort(last);
    let all = sort(all);
    let mut spans: Vec<PathCoverageSpan> = Vec::new();
    let mut opened: usize = 0;
    let mut closed: usize = 0;
    let mut previous: Option<Scalar> = None;
    assert(all@.take(0) == Seq::<Scalar>::empty());
    for i in 0..all.len()
        invariant
            a.lawful(),
            all@ == sorted_ends(intervals@),
            sorted_by(all@, ascending()),
            sorted_by(first@, ascending()),
            sorted_by(last@, ascending()),
            first@.to_multiset() == starts(intervals@).to_multiset(),
            last@.to_multiset() == stops(intervals@).to_multiset(),
            opened <= first.len(),
            closed <= last.len(),
            spans@ == spans_between(a, intervals@, distinct(all@.take(i as int))),
            previous is None <==> i == 0,
            previous is None ==> opened == 0 && closed == 0,
            distinct(all@.take(i as int)).len() == 0 <==> i == 0,
            previous matches Some(p) ==> {
                &&& p == distinct(all@.take(i as int)).last()
                &&& p.rank() <= all@[i - 1].rank()
                &&& opened == reached(first@, p)
                &&& closed == reached(last@, p)
                &&& forall|k: int| 0 <= k < opened ==> (#[trigger] first@[k]).rank() <= p.rank()
                &&& forall|k: int| 0 <= k < closed ==> (#[trigger] last@[k]).rank() <= p.rank()
            },
    {
        let position = all[i];
        let ghost done = distinct(all@.take(i as int));
        assert(all@.take(i + 1).drop_last() == all@.take(i as int));
        assert(i > 0 ==> ascending()(all@[i - 1], all@[i as int]));
        let mut fresh = true;
        if let Some(start) = previous {
            if position.same(start) {
                fresh = false;
            } else {
                proof {
                    lemma_reached_multiset(first@, start);
                    lemma_reached_multiset(starts(intervals@), start);
                    lemma_reached_multiset(last@, start);
                    lemma_reached_multiset(stops(intervals@), start);
                    assert(done.push(position).drop_last() == done);
                }
                if (Scalar { bits: MIN_PATH_LEN_MM }).le(minus(a, position, start)) && opened
                    > closed {
                    let depth: usize = opened - closed;
                    let count: u16 = if depth > 0xffff {
                        0xffff
                    } else {
                        depth as u16
                    };
                    spans.push(PathCoverageSpan { start, end: position, count });
                }
            }
        }
        if fresh {
            opened = pass(&first, opened, position);
            closed = pass(&last, closed, position);
            previous = Some(position);
        }
    }
    assert(all@.take(all.len() as int) == all@);
    spans
}

/// Spans in the order of the line.
pub open spec fn in_line(spans: Seq<PathCoverageSpan>) -> bool {
    &&& forall|k: int|
        0 <= k < spans.len() ==> !(#[trigger] spans[k]).start.nan() && !spans[k].end.nan()
    &&& forall|j: int, k: int|
        0 <= j <= k < spans.len() ==> (#[trigger] spans[j]).start.rank() <= (
        #[trigger] spans[k]).start.rank() && spans[j].end.rank() <= spans[k].end.rank()
}

proof fn lemma_spans_in_line<A: Arithmetic>(
    a: &A,
    intervals: Seq<PathInterval>,
    positions: Seq<Scalar>,
)
    requires
        forall|k: int| 0 <= k < positions.len() ==> !(#[trigger] positions[k]).nan(),
        forall|j: int, k: int|
            0 <= j <= k < positions.len() ==> (#[trigger] positions[j]).rank() <= (
            #[trigger] positions[k]).rank(),
    ensures
        in_line(spans_between(a, intervals, positions)),
        forall|k: int|
            0 <= k < spans_between(a, intervals, positions).len() ==> {
                let span = #[trigger] spans_between(a, intervals, positions)[k];
                &&& positions.len() >= 2
                &&& span.start.rank() <= positions[positions.len() - 2].rank()
                &&& span.end.rank() <= positions.last().rank()
            },
    decreases positions.len(),
{
    if positions.len() >= 2 {
        let front = positions.drop_last();
        lemma_spans_in_line(a, intervals, front);
        let spans = spans_between(a, intervals, positions);
        let before = spans_between(a, intervals, front);
        assert forall|k: int| 0 <= k < before.len() implies {
            let span = #[trigger] before[k];
            &&& span.start.rank() <= positions[positions.len() - 2].rank()
            &&& span.end.rank() <= positions.last().rank()
        } by {
            assert(front[front.len() - 2].rank() <= positions[positions.len() - 2].rank());
        }
    }
}

proof fn lemma_distinct(s: Seq<Scalar>)
    requires
        forall|k: int| 0 <= k < s.len() ==> !(#[trigger] s[k]).nan(),
        sorted_by(s, ascending()),
    ensures
        distinct(s).len() <= s.len(),
        forall|k: int| 0 <= k < distinct(s).len() ==> !(#[trigger] distinct(s)[k]).nan(),
        forall|j: int, k: int|
            0 <= j <= k < distinct(s).len() ==> (#[trigger] distinct(s)[j]).rank() <= (
            #[trigger] distinct(s)[k]).rank(),
        distinct(s).len() > 0 ==> s.len() > 0 && distinct(s).last().rank() <= s.last().rank(),
    decreases s.len(),
{
    if s.len() > 0 {
        let front = s.drop_last();
        assert(forall|j: int, k: int|
            0 <= j < k < front.len() ==> #[trigger] ascending()(front[j], front[k])) by {
            assert forall|j: int, k: int| 0 <= j < k < front.len() implies #[trigger] ascending()(
                front[j],
                front[k],
            ) by {
                assert(ascending()(s[j], s[k]));
            }
        }
        lemma_distinct(front);
        if front.len() > 0 {
            assert(ascending()(s[s.len() - 2], s[s.len() - 1]));
        }
        let kept = distinct(front);
        assert forall|k: int| 0 <= k < kept.len() implies (#[trigger] kept[k]).rank()
            <= s.last().rank() by {
            assert(kept[k].rank() <= kept[kept.len() - 1].rank());
        }
        assert(distinct(s) == kept || distinct(s) == kept.push(s.last()));
    }
}

proof fn lemma_sorted_ends(intervals: Seq<PathInterval>)
    requires
        forall|k: int| 0 <= k < intervals.len() ==> (#[trigger] intervals[k]).wf(),
    ensures
        sorted_by(sorted_ends(intervals), ascending()),
        forall|k: int|
            0 <= k < sorted_ends(intervals).len() ==> !(#[trigger] sorted_ends(
                intervals,
            )[k]).nan(),
{
    let all = starts(intervals) + stops(intervals);
    lemma_ascending();
    all.lemma_sort_by_ensures(ascending());
    let sorted = sorted_ends(intervals);
    assert forall|k: int| 0 <= k < sorted.len() implies !(#[trigger] sorted[k]).nan() by {
        assert(sorted.contains(sorted[k]));
        assert(all.contains(sorted[k]));
        let j = choose|j: int| 0 <= j < all.len() && all[j] == sorted[k];
        if j < intervals.len() {
            assert(intervals[j].wf());
        } else {
            assert(intervals[j - intervals.len()].wf());
        }
    }
}

/// How many spans end at or before `x`.
fn ended(spans: &Vec<PathCoverageSpan>, x: Scalar) -> (n: usize)
    requires
        in_line(spans@),
    ensures
        n <= spans.len(),
        forall|k: int| 0 <= k < n ==> (#[trigger] spans@[k]).end.at_most(x),
        forall|k: int| n <= k < spans.len() ==> !(#[trigger] spans@[k]).end.at_most(x),
{
    let mut lo: usize = 0;
    let mut hi: usize = spans.len();
    while lo < hi
        invariant
            lo <= hi <= spans.len(),
            in_line(spans@),
            forall|k: int| 0 <= k < lo ==> (#[trigger] spans@[k]).end.at_most(x),
            forall|k: int| hi <= k < spans.len() ==> !(#[trigger] spans@[k]).end.at_most(x),
        decreases hi - lo,
    {
        let mid: usize = lo + (hi - lo) / 2;
        if spans[mid].end.le(x) {
            lo = mid + 1;
        } else {
            hi = mid;
        }
    }
    lo
}

/// How many spans start before `x`.
fn begun(spans: &Vec<PathCoverageSpan>, x: Scalar) -> (n: usize)
    requires
        in_line(spans@),
    ensures
        n <= spans.len(),
        forall|k: int| 0 <= k < n ==> (#[trigger] spans@[k]).start.below(x),
        forall|k: int| n <= k < spans.len() ==> !(#[trigger] spans@[k]).start.below(x),
{
    let mut lo: usize = 0;
    let mut hi: usize = spans.len();
    while lo < hi
        invariant
            lo <= hi <= spans.len(),
            in_line(spans@),
            forall|k: int| 0 <= k < lo ==> (#[trigger] spans@[k]).start.below(x),
            forall|k: int| hi <= k < spans.len() ==> !(#[trigger] spans@[k]).start.below(x),
        decreases hi - lo,
    {
        let mid: usize = lo + (hi - lo) / 2;
        if spans[mid].start.lt(x) {
            lo = mid + 1;
        } else {
            hi = mid;
        }
    }
    lo
}

/// The spans that overlap an interval are neighbours.
proof fn lemma_peak<A: Arithmetic>(
    a: &A,
    spans: Seq<PathCoverageSpan>,
    counts: Seq<u16>,
    interval: PathInterval,
    first: int,
    last: int,
)
    requires
        counts.len() >= spans.len(),
        forall|k: int| 0 <= k < spans.len() ==> #[trigger] counts[k] == spans[k].count,
        0 <= first,
        forall|k: int|
            0 <= k < spans.len() ==> (overlaps(a, #[trigger] spans[k], interval) <==> first <= k
                < last),
    ensures
        peak(a, spans, interval) == largest(
            counts,
            first,
            if last < spans.len() {
                last
            } else {
                spans.len() as int
            },
        ),
    decreases spans.len(),
{
    if spans.len() > 0 {
        let front = spans.drop_last();
        assert forall|k: int| 0 <= k < front.len() implies (overlaps(
            a,
            #[trigger] front[k],
            interval,
        ) <==> first <= k < last) by {
            assert(front[k] == spans[k]);
        }
        lemma_peak(a, front, counts, interval, first, last);
        assert(overlaps(a, spans.last(), interval) <==> first <= spans.len() - 1 < last);
    }
}

/// The largest of `counts` from `first` to before `last`.
fn scan(counts: &Vec<u16>, first: usize, last: usize) -> (out: u16)
    requires
        first <= last <= counts.len(),
    ensures
        out == largest(counts@, first as int, last as int),
{
    let mut out: u16 = 0;
    for k in first..last
        invariant
            last <= counts.len(),
            out == largest(counts@, first as int, k as int),
    {
        out = max_count(out, counts[k]);
    }
    out
}

/// The most passes over the pieces of the line that segment `idx` runs over.
pub open spec fn passes_in<A: Arithmetic>(
    a: &A,
    intervals: Seq<PathInterval>,
    n: int,
    idx: int,
) -> u16
    decreases n,
{
    if n <= 0 {
        0
    } else {
        let rest = passes_in(a, intervals, n - 1, idx);
        let interval = intervals[n - 1];
        if interval.segment_index == idx {
            larger(rest, peak(a, spans_of(a, intervals), interval))
        } else {
            rest
        }
    }
}

/// The most passes over the pieces of the line that segment `idx` runs over: none are counted on a
/// line that fewer than two segments run over.
pub open spec fn passes_on<A: Arithmetic>(a: &A, intervals: Seq<PathInterval>, idx: int) -> u16 {
    if intervals.len() < 2 {
        0
    } else {
        passes_in(a, intervals, intervals.len() as int, idx)
    }
}

/// Raises the counts of the segments that run over a line to the most passes over their pieces.
pub fn apply_path_coverage_counts<A: Arithmetic>(
    a: &A,
    intervals: &Vec<PathInterval>,
    seg_counts: &mut Vec<u16>,
)
    requires
        a.lawful(),
        forall|k: int|
            0 <= k < intervals.len() ==> (#[trigger] intervals@[k]).wf()
                && intervals@[k].segment_index < old(seg_counts).len(),
    ensures
        final(seg_counts).len() == old(seg_counts).len(),
        forall|idx: int|
            0 <= idx < final(seg_counts).len() ==> #[trigger] final(seg_counts)@[idx] == larger(
                old(seg_counts)@[idx],
                passes_on(a, intervals@, idx),
            ),
        intervals.len() < 2 ==> final(seg_counts)@ == old(seg_counts)@,
{
    if intervals.len() < 2 {
        return;
    }
    let spans = covered_spans(a, intervals);
    let ghost initial = seg_counts@;
    proof {
        lemma_sorted_ends(intervals@);
        lemma_distinct(sorted_ends(intervals@));
        lemma_spans_in_line(a, intervals@, distinct(sorted_ends(intervals@)));
    }
    let mut counts: Vec<u16> = Vec::new();
    for k in 0..spans.len()
        invariant
            counts.len() == k,
            forall|j: int| 0 <= j < k ==> #[trigger] counts@[j] == spans@[j].count,
    {
        counts.push(spans[k].count);
    }
    let tree = if counts.len() <= usize::MAX / 4 {
        Some(RangeMax::new(counts.as_slice()))
    } else {
        None
    };
    for i in 0..intervals.len()
        invariant
            a.lawful(),
            spans@ == spans_of(a, intervals@),
            in_line(spans@),
            counts.len() == spans.len(),
            forall|j: int| 0 <= j < counts.len() ==> #[trigger] counts@[j] == spans@[j].count,
            forall|k: int|
                0 <= k < intervals.len() ==> (#[trigger] intervals@[k]).segment_index
                    < seg_counts.len(),
            seg_counts.len() == initial.len(),
            tree matches Some(t) ==> t.wf() && t.leaves().len() >= counts.len() && forall|k: int|
                0 <= k < counts.len() ==> #[trigger] t.leaves()[k] == counts@[k],
            forall|idx: int|
                0 <= idx < seg_counts.len() ==> #[trigger] seg_counts@[idx] == larger(
                    initial[idx],
                    passes_in(a, intervals@, i as int, idx),
                ),
    {
        let interval = intervals[i];
        let least = Scalar { bits: MIN_PATH_LEN_MM };
        let first = ended(&spans, plus(a, interval.start, least));
        let last = begun(&spans, minus(a, interval.end, least));
        proof {
            assert forall|k: int| 0 <= k < spans.len() implies (overlaps(
                a,
                #[trigger] spans@[k],
                interval,
            ) <==> first <= k < last) by {
            }
            lemma_peak(a, spans@, counts@, interval, first as int, last as int);
        }
        if first < last {
            let count: u16 = match &tree {
                Some(t) => {
                    proof {
                        lemma_largest_same(t.leaves(), counts@, first as int, last as int);
                    }
                    t.query(first, last)
                },
                None => scan(&counts, first, last),
            };
            let index: usize = interval.segment_index;
            let new = max_count(seg_counts[index], count);
            seg_counts.set(index, new);
        }
    }
}

proof fn lemma_largest_same(s: Seq<u16>, t: Seq<u16>, lo: int, hi: int)
    requires
        forall|k: int| lo <= k < hi ==> #[trigger] s[k] == t[k],
    ensures
        largest(s, lo, hi) == largest(t, lo, hi),
    decreases hi - lo,
{
    if lo < hi {
        lemma_largest_same(s, t, lo, hi - 1);
    }
}

/// How many intervals cover the piece of the line that starts at `p`.
pub open spec fn covering(intervals: Seq<PathInterval>, p: Scalar) -> int
    decreases intervals.len(),
{
    if intervals.len() == 0 {
        0
    } else {
        let last = intervals.last();
        covering(intervals.drop_last(), p) + if last.start.rank() <= p.rank() < last.end.rank() {
            1int
        } else {
            0
        }
    }
}

/// The count of a span is the number of intervals that cover it.
pub proof fn lemma_depth_counts_intervals(intervals: Seq<PathInterval>, p: Scalar)
    requires
        forall|k: int| 0 <= k < intervals.len() ==> (#[trigger] intervals[k]).wf(),
    ensures
        depth_at(intervals, p) == covering(intervals, p),
    decreases intervals.len(),
{
    if intervals.len() > 0 {
        let front = intervals.drop_last();
        assert forall|k: int| 0 <= k < front.len() implies (#[trigger] front[k]).wf() by {
            assert(front[k] == intervals[k]);
        }
        lemma_depth_counts_intervals(front, p);
        assert(intervals[intervals.len() - 1].wf());
        assert(starts(intervals).drop_last() == starts(front));
        assert(stops(intervals).drop_last() == stops(front));
    } else {
        assert(starts(intervals).len() == 0 && stops(intervals).len() == 0);
    }
}

} // verus!
