//! How far a simulation gets.
use vstd::prelude::*;
use crate::arith::{minus, over, plus, times, Arithmetic, Scalar};
use crate::geometry::{between, lemma_lerp, placed3, way_slack};
use crate::grbl::state::{spec_dist, Segment};
use crate::measure::{
    extent, gives, lemma_product, lemma_worth_of_constants, lemma_worth_order, near, precise, worth,
};
use crate::ui::editor::{locked, marked, place_at, simulated};

verus! {

/// The length of a segment.
pub open spec fn length<A: Arithmetic>(a: &A, s: Segment) -> real {
    worth(spec_dist(a, s.start, s.end))
}

/// Whether every segment has a length, of no more than `l`.
pub open spec fn measured<A: Arithmetic>(a: &A, segments: Seq<Segment>, l: real) -> bool {
    forall|k: int|
        0 <= k < segments.len() ==> {
            let s = #[trigger] segments[k];
            spec_dist(a, s.start, s.end).finite() && 0 as real <= length(a, s) <= l
        }
}

/// The length of the first `n` segments.
pub open spec fn run<A: Arithmetic>(a: &A, segments: Seq<Segment>, n: int) -> real
    decreases n,
{
    if n <= 0 {
        0 as real
    } else {
        run(a, segments, n - 1) + length(a, segments[n - 1])
    }
}

/// How far along the path it is to the part `frac` of segment `seg`.
pub open spec fn gone<A: Arithmetic>(
    a: &A,
    segments: Seq<Segment>,
    seg: int,
    frac: Scalar,
) -> real {
    if seg < segments.len() {
        run(a, segments, seg) + worth(frac) * length(a, segments[seg])
    } else {
        run(a, segments, segments.len() as int)
    }
}

/// How far one segment may be off: parts of it by `tiny`, lengths by `eps`.
pub open spec fn piece_slack(l: real, tiny: real, eps: real) -> real {
    2 as real * (tiny * l) + 2 as real * eps
}

/// How far the segments from `from` to `to` may be off.
pub open spec fn path_slack(from: int, to: int, l: real, tiny: real, eps: real) -> real {
    (to - from + 1) as real * piece_slack(l, tiny, eps)
}

/// Whether a simulation can be followed: the lengths and the way to go are finite and not too large
/// for the arithmetic.
pub open spec fn followable<A: Arithmetic>(
    a: &A,
    segments: Seq<Segment>,
    seg: int,
    frac: Scalar,
    remaining: Scalar,
    l: real,
    tiny: real,
    bound: real,
    eps: real,
) -> bool {
    &&& precise(a, bound, eps)
    &&& precise(a, 4 as real, tiny)
    &&& 0 as real <= tiny && 8 as real * tiny <= 1 as real
    &&& 0 as real <= eps
    &&& 1000 as real * (tiny * l + eps) <= 1 as real
    &&& measured(a, segments, l)
    &&& 0 <= seg <= segments.len()
    &&& frac.finite() && 0 as real <= worth(frac) <= 1 as real
    &&& remaining.finite()
    &&& l >= 0 as real
    &&& worth(remaining) + path_slack(seg, segments.len() as int, l, tiny, eps) + 4 as real * l
        + 8 as real <= bound
}

/// What is left of a segment when a part of it is done.
proof fn lemma_left<A: Arithmetic>(
    a: &A,
    frac: Scalar,
    len: Scalar,
    l: real,
    tiny: real,
    bound: real,
    eps: real,
)
    requires
        precise(a, bound, eps),
        precise(a, 4 as real, tiny),
        0 as real <= tiny <= 1 as real,
        frac.finite() && 0 as real <= worth(frac) <= 1 as real,
        len.finite() && 0 as real <= worth(len) <= l,
        4 as real * l + 8 as real <= bound,
    ensures
        ({
            let left = times(a, minus(a, Scalar { bits: 0x3f80_0000 }, frac), len);
            let full = (1 as real - worth(frac)) * worth(len);
            &&& gives(left, full, tiny * l + eps)
            &&& 0 as real <= full <= worth(len)
        }),
{
    lemma_worth_of_constants();
    let one = Scalar { bits: 0x3f80_0000 };
    let part = minus(a, one, frac);
    let rest = 1 as real - worth(frac);
    assert(gives(part, rest, tiny));
    let w = worth(len);
    lemma_product(worth(part), w, rest, w, tiny, 0 as real);
    assert(tiny * extent(w) <= tiny * l && 0 as real * extent(rest) == 0 as real && tiny * 0 as real
        == 0 as real) by (nonlinear_arith)
        requires
            0 as real <= extent(w) <= l,
            tiny >= 0 as real,
    ;
    assert(0 as real <= rest * w <= w) by (nonlinear_arith)
        requires
            0 as real <= rest <= 1 as real,
            w >= 0 as real,
    ;
    assert(tiny * l <= l) by (nonlinear_arith)
        requires
            0 as real <= tiny <= 1 as real,
            l >= 0 as real,
    ;
}

/// A simulation goes as far as there is way to go, and no further, unless a marked segment stops it
/// or the path ends: up to rounding, and up to a thousandth at its end, since it passes over a
/// segment that is shorter.
pub proof fn lemma_simulation_goes<A: Arithmetic>(
    a: &A,
    segments: Seq<Segment>,
    marks: Seq<bool>,
    seg: int,
    frac: Scalar,
    remaining: Scalar,
    l: real,
    tiny: real,
    bound: real,
    eps: real,
)
    requires
        followable(a, segments, seg, frac, remaining, l, tiny, bound, eps),
    ensures
        ({
            let (to, part, stopped) = simulated(a, segments, marks, seg, frac, remaining);
            let r = worth(remaining);
            let way = gone(a, segments, to, part) - gone(a, segments, seg, frac);
            let slack = path_slack(seg, to, l, tiny, eps);
            &&& seg <= to <= segments.len()
            &&& part.finite()
            &&& r <= 0 as real ==> to == seg && part == frac && !stopped
            &&& r > 0 as real ==> 1000000 as real * way <= 1000000 as real * (r + slack)
                + 1001 as real
            &&& r > 0 as real ==> way >= -slack
            &&& !stopped && to < segments.len() ==> way >= r - slack
        }),
    decreases segments.len() - seg,
{
    let (to, part, stopped) = simulated(a, segments, marks, seg, frac, remaining);
    let zero = Scalar { bits: 0 };
    let r = worth(remaining);
    let c = piece_slack(l, tiny, eps);
    lemma_worth_of_constants();
    lemma_worth_order(zero, remaining);
    assert(tiny * l >= 0 as real) by (nonlinear_arith)
        requires
            tiny >= 0 as real,
            l >= 0 as real,
    ;
    let rest_slack = path_slack(seg, segments.len() as int, l, tiny, eps);
    assert(rest_slack >= 0 as real) by (nonlinear_arith)
        requires
            rest_slack == (segments.len() - seg + 1) as real * c,
            segments.len() >= seg,
            c >= 0 as real,
    ;
    assert(path_slack(seg, seg, l, tiny, eps) == c) by (nonlinear_arith)
        requires
            path_slack(seg, seg, l, tiny, eps) == (seg - seg + 1) as real * c,
    ;
    if !zero.below(remaining) || seg >= segments.len() || marked(marks, seg) {
    } else {
        let s = segments[seg];
        let len = spec_dist(a, s.start, s.end);
        let w = worth(len);
        let left = times(a, minus(a, Scalar { bits: 0x3f80_0000 }, frac), len);
        let full = (1 as real - worth(frac)) * w;
        let short = Scalar { bits: 0x3a83_126f };
        lemma_left(a, frac, len, l, tiny, bound, eps);
        lemma_worth_order(len, short);
        lemma_worth_order(left, remaining);
        if len.below(short) || left.at_most(remaining) {
            let next = minus(a, remaining, left);
            assert(gives(next, r - worth(left), eps));
            assert(near(worth(next), r - full, c));
            lemma_next_followable(a, segments, seg, frac, remaining, next, l, tiny, bound, eps);
            lemma_simulation_goes(a, segments, marks, seg + 1, zero, next, l, tiny, bound, eps);
            lemma_gone_on(a, segments, seg, frac);
            let next_slack = path_slack(seg + 1, to, l, tiny, eps);
            assert(path_slack(seg, to, l, tiny, eps) == next_slack + c) by (nonlinear_arith)
                requires
                    path_slack(seg, to, l, tiny, eps) == (to - seg + 1) as real * c,
                    next_slack == (to - (seg + 1) + 1) as real * c,
            ;
            assert(next_slack >= 0 as real) by (nonlinear_arith)
                requires
                    next_slack == (to - (seg + 1) + 1) as real * c,
                    to >= seg + 1,
                    c >= 0 as real,
            ;
            let way = gone(a, segments, to, part) - gone(a, segments, seg, frac);
            let rest = gone(a, segments, to, part) - gone(a, segments, seg + 1, zero);
            assert(way == rest + full);
            if worth(next) <= 0 as real {
                assert(rest == 0 as real);
            }
        } else {
            let q = over(a, remaining, len);
            let e = tiny * l + eps;
            assert(1000 as real * w >= 1 as real);
            assert(r < full + e);
            assert(0 as real <= r / w <= 1 as real - worth(frac) + 1 as real) by (nonlinear_arith)
                requires
                    r > 0 as real,
                    r < full + e,
                    full == (1 as real - worth(frac)) * w,
                    1000 as real * e <= 1 as real,
                    1000 as real * w >= 1 as real,
            ;
            assert(gives(q, r / w, tiny));
            assert(gives(plus(a, frac, q), worth(frac) + worth(q), tiny));
            assert((r / w) * w == r) by (nonlinear_arith)
                requires
                    1000 as real * w >= 1 as real,
            ;
            let (f, g) = (worth(frac), worth(part));
            assert(near(g, f + r / w, 2 as real * tiny));
            lemma_product(g, w, f + r / w, w, 2 as real * tiny, 0 as real);
            assert((f + r / w) * w == f * w + (r / w) * w) by (nonlinear_arith);
            assert((2 as real * tiny) * extent(w) <= 2 as real * (tiny * l) && 0 as real * extent(
                f + r / w,
            ) == 0 as real && (2 as real * tiny) * 0 as real == 0 as real) by (nonlinear_arith)
                requires
                    0 as real <= extent(w) <= l,
                    tiny >= 0 as real,
            ;
        }
    }
}

/// Passing over a segment goes the rest of its length.
proof fn lemma_gone_on<A: Arithmetic>(a: &A, segments: Seq<Segment>, seg: int, frac: Scalar)
    requires
        0 <= seg < segments.len(),
    ensures
        gone(a, segments, seg + 1, Scalar { bits: 0 }) - gone(a, segments, seg, frac) == (1 as real
            - worth(frac)) * length(a, segments[seg]),
{
    lemma_worth_of_constants();
    let w = length(a, segments[seg]);
    let f = worth(frac);
    assert((1 as real - f) * w == w - f * w) by (nonlinear_arith);
    if seg + 1 < segments.len() {
        let v = length(a, segments[seg + 1]);
        assert(0 as real * v == 0 as real) by (nonlinear_arith);
    }
}

proof fn lemma_next_followable<A: Arithmetic>(
    a: &A,
    segments: Seq<Segment>,
    seg: int,
    frac: Scalar,
    remaining: Scalar,
    next: Scalar,
    l: real,
    tiny: real,
    bound: real,
    eps: real,
)
    requires
        followable(a, segments, seg, frac, remaining, l, tiny, bound, eps),
        seg < segments.len(),
        next.finite(),
        worth(next) <= worth(remaining) + piece_slack(l, tiny, eps),
    ensures
        followable(a, segments, seg + 1, Scalar { bits: 0 }, next, l, tiny, bound, eps),
{
    lemma_worth_of_constants();
    let n = segments.len() as int;
    let c = piece_slack(l, tiny, eps);
    assert(path_slack(seg, n, l, tiny, eps) == path_slack(seg + 1, n, l, tiny, eps) + c)
        by (nonlinear_arith)
        requires
            path_slack(seg, n, l, tiny, eps) == (n - seg + 1) as real * c,
            path_slack(seg + 1, n, l, tiny, eps) == (n - (seg + 1) + 1) as real * c,
    ;
}

/// Ticks add up: a simulation that goes on for a while, and then for another, gets as far as one
/// that goes on for both at once.
pub proof fn lemma_ticks_add_up<A: Arithmetic>(
    a: &A,
    segments: Seq<Segment>,
    marks: Seq<bool>,
    seg: int,
    frac: Scalar,
    first: Scalar,
    second: Scalar,
    both: Scalar,
    l: real,
    tiny: real,
    bound: real,
    eps: real,
)
    requires
        followable(a, segments, seg, frac, first, l, tiny, bound, eps),
        followable(a, segments, seg, frac, both, l, tiny, bound, eps),
        worth(first) > 0 as real && worth(second) > 0 as real,
        near(worth(both), worth(first) + worth(second), eps),
        worth(both) > 0 as real,
        ({
            let (s, f, stopped) = simulated(a, segments, marks, seg, frac, first);
            let (t, g, halted) = simulated(a, segments, marks, s, f, second);
            let (u, h, ended) = simulated(a, segments, marks, seg, frac, both);
            &&& !stopped && !halted && !ended
            &&& t < segments.len() && u < segments.len()
            &&& followable(a, segments, s, f, second, l, tiny, bound, eps)
        }),
    ensures
        ({
            let (s, f, _stopped) = simulated(a, segments, marks, seg, frac, first);
            let (t, g, _halted) = simulated(a, segments, marks, s, f, second);
            let (u, h, _ended) = simulated(a, segments, marks, seg, frac, both);
            let slack = path_slack(seg, s, l, tiny, eps) + path_slack(s, t, l, tiny, eps) + path_slack(
                seg,
                u,
                l,
                tiny,
                eps,
            ) + eps;
            near(
                1000000 as real * gone(a, segments, t, g),
                1000000 as real * gone(a, segments, u, h),
                1000000 as real * slack + 2002 as real,
            )
        }),
{
    let (s, f, stopped) = simulated(a, segments, marks, seg, frac, first);
    lemma_simulation_goes(a, segments, marks, seg, frac, first, l, tiny, bound, eps);
    lemma_simulation_goes(a, segments, marks, s, f, second, l, tiny, bound, eps);
    lemma_simulation_goes(a, segments, marks, seg, frac, both, l, tiny, bound, eps);
}

/// Within a segment a tick adds to the part that is done: the more by the way to go.
pub proof fn lemma_tick_moves_on<A: Arithmetic>(
    a: &A,
    segments: Seq<Segment>,
    marks: Seq<bool>,
    seg: int,
    frac: Scalar,
    remaining: Scalar,
    l: real,
    tiny: real,
    bound: real,
    eps: real,
)
    requires
        followable(a, segments, seg, frac, remaining, l, tiny, bound, eps),
        seg < segments.len(),
        worth(remaining) > piece_slack(l, tiny, eps),
        ({
            let (to, _part, stopped) = simulated(a, segments, marks, seg, frac, remaining);
            to == seg && !stopped
        }),
    ensures
        ({
            let part = simulated(a, segments, marks, seg, frac, remaining).1;
            let w = length(a, segments[seg]);
            &&& worth(part) > worth(frac)
            &&& worth(part) * w >= worth(frac) * w + worth(remaining) - piece_slack(l, tiny, eps)
        }),
{
    lemma_simulation_goes(a, segments, marks, seg, frac, remaining, l, tiny, bound, eps);
    let part = simulated(a, segments, marks, seg, frac, remaining).1;
    let c = piece_slack(l, tiny, eps);
    assert(path_slack(seg, seg, l, tiny, eps) == c) by (nonlinear_arith)
        requires
            path_slack(seg, seg, l, tiny, eps) == (seg - seg + 1) as real * c,
    ;
    let (f, g, w) = (worth(frac), worth(part), length(a, segments[seg]));
    assert(measured(a, segments, l));
    assert(0 as real <= length(a, segments[seg]));
    assert(g > f) by (nonlinear_arith)
        requires
            g * w >= f * w + (worth(remaining) - c),
            worth(remaining) - c > 0 as real,
            w >= 0 as real,
    ;
}

/// A simulation never passes over a marked segment. If it is stopped, then at one, and else it has
/// used up its way or has come to the end.
pub proof fn lemma_simulation_stops_at_mark<A: Arithmetic>(
    a: &A,
    segments: Seq<Segment>,
    marks: Seq<bool>,
    seg: int,
    frac: Scalar,
    remaining: Scalar,
)
    requires
        0 <= seg,
    ensures
        ({
            let (to, part, stopped) = simulated(a, segments, marks, seg, frac, remaining);
            &&& seg <= to
            &&& forall|k: int| seg <= k < to ==> !(k < marks.len() && #[trigger] marks[k])
            &&& stopped ==> to < segments.len() && to < marks.len() && marks[to]
            &&& to == seg && seg < marks.len() && marks[seg] ==> part == frac
            &&& !stopped && to > seg && to < segments.len() && to < marks.len() && marks[to]
                ==> part == (Scalar { bits: 0 })
        }),
    decreases segments.len() - seg,
{
    if (Scalar { bits: 0 }).below(remaining) && seg < segments.len() && !marked(marks, seg) {
        let s = segments[seg];
        let len = spec_dist(a, s.start, s.end);
        let left = times(a, minus(a, Scalar { bits: 0x3f80_0000 }, frac), len);
        if len.below(Scalar { bits: 0x3a83_126f }) || left.at_most(remaining) {
            lemma_simulation_stops_at_mark(
                a,
                segments,
                marks,
                seg + 1,
                Scalar { bits: 0 },
                minus(a, remaining, left),
            );
        }
    }
}

/// The tool of a simulation stands on its segment, at the part that is done; at the end of the path
/// where nothing is left, and on the surface where the height is locked.
pub proof fn lemma_simulated_place<A: Arithmetic>(
    a: &A,
    segments: Seq<Segment>,
    seg: int,
    frac: Scalar,
    z_locked: bool,
    m: real,
    tiny: real,
    bound: real,
    eps: real,
)
    requires
        precise(a, bound, eps),
        0 as real <= eps <= 1 as real,
        0 as real <= tiny <= 1 as real,
        m >= 0 as real,
        6 as real * m + 6 as real <= bound,
        0 <= seg <= segments.len(),
        segments.len() > 0,
        forall|k: int|
            0 <= k < segments.len() ==> placed3((#[trigger] segments[k]).start, m) && placed3(
                segments[k].end,
                m,
            ),
        frac.finite() && 0 as real <= worth(frac) <= 1 as real,
    ensures
        ({
            let v = locked(place_at(a, segments, seg, frac), z_locked);
            let d = way_slack(m, tiny, eps);
            &&& seg < segments.len() ==> {
                let s = segments[seg];
                &&& near(worth(v.x), between(worth(s.start.x), worth(s.end.x), worth(frac)), d)
                &&& near(worth(v.y), between(worth(s.start.y), worth(s.end.y), worth(frac)), d)
                &&& !z_locked ==> near(
                    worth(v.z),
                    between(worth(s.start.z), worth(s.end.z), worth(frac)),
                    d,
                )
            }
            &&& seg == segments.len() ==> {
                let e = segments[segments.len() - 1].end;
                v.x == e.x && v.y == e.y && (!z_locked ==> v.z == e.z)
            }
            &&& z_locked ==> worth(v.z) == 0 as real
        }),
{
    lemma_worth_of_constants();
    if seg < segments.len() {
        let s = segments[seg];
        lemma_lerp(a, s.start, s.end, frac, worth(frac), m, tiny, bound, eps);
    }
}

} // verus!
