//! Which cells of the stock a move cuts, and how deep.
use vstd::prelude::*;
use crate::arith::{
    minus, over, plus, single1, single_of, times, to_unsigned, Arithmetic, Op, Scalar, HALF, ONE,
};
use crate::geometry::{between, lemma_square, placed3, square_slack};
use crate::grbl::state::Segment;
use crate::material::{
    cut_depth, end_cell, first_cell, height_after, spec_approach, spec_cells, spec_middle,
    spec_resolution, window, MaterialField, NO_LENGTH,
};
use crate::measure::{
    extent, gives, lemma_product, lemma_worth_of_constants, lemma_worth_order, near, precise, worth,
};

verus! {

/// The square of the distance in the plane from `(x, y)` to the point at the part `t` of a move.
pub open spec fn gap(seg: Segment, x: real, y: real, t: real) -> real {
    let dx = x - between(worth(seg.start.x), worth(seg.end.x), t);
    let dy = y - between(worth(seg.start.y), worth(seg.end.y), t);
    dx * dx + dy * dy
}

/// How far a square of a distance may be off, on coordinates up to `m`.
pub open spec fn gap_slack(m: real, eps: real, coarse: real) -> real {
    32 as real * (eps * (m + 1 as real)) + 3 as real * coarse
}

/// How far the sum of two products may be off.
pub open spec fn sum_slack(m: real, eps: real, coarse: real) -> real {
    2 as real * square_slack(m, eps, coarse) + coarse
}

/// How much nearer another point of a move may be than the nearest that is found. A move whose
/// squared length counts as none is no longer than `short` along an axis.
pub open spec fn aim_slack(m: real, tiny: real, eps: real, coarse: real, short: real) -> real {
    6 as real * sum_slack(m, eps, coarse) + 16 as real * (tiny * (m * m)) + 8 as real * (short * m)
}

/// Whether a quotient is on the same side of zero and of one as it is without rounding.
pub open spec fn keeps_sides<A: Arithmetic>(a: &A) -> bool {
    forall|x: Scalar, y: Scalar|
        #![trigger over(a, x, y)]
        x.finite() && y.finite() && worth(y) > 0 as real ==> {
            let q = over(a, x, y);
            &&& worth(x) <= 0 as real ==> q.at_most(Scalar { bits: 0 })
            &&& worth(x) >= worth(y) ==> (Scalar { bits: ONE }).at_most(q)
        }
}

/// What a move, the point next to it and an arithmetic have to be for the laws.
pub open spec fn cuttable<A: Arithmetic>(
    a: &A,
    seg: Segment,
    m: real,
    tiny: real,
    bound: real,
    eps: real,
    big: real,
    coarse: real,
    short: real,
) -> bool {
    &&& precise(a, 2 as real, tiny)
    &&& precise(a, bound, eps)
    &&& precise(a, big, coarse)
    &&& keeps_sides(a)
    &&& placed3(seg.start, m) && placed3(seg.end, m)
    &&& 0 as real <= tiny <= 1 as real
    &&& 0 as real <= eps <= 1 as real
    &&& coarse >= 0 as real
    &&& m >= 0 as real
    &&& short >= 0 as real
    &&& 10 as real * m + 10 as real <= bound
    &&& 40 as real * (m * m) + 80 as real * m + 80 as real + 10 as real * coarse <= big
    &&& worth(Scalar { bits: NO_LENGTH }) + sum_slack(m, eps, coarse) <= short * short
}

/// A part of a number that is bounded by `m` is bounded by that part of `m`.
proof fn lemma_share_of(p: real, m: real, u: real)
    requires
        extent(p) <= m,
        u >= 0 as real,
    ensures
        -(m * u) <= p * u <= m * u,
{
    assert((m - p) * u >= 0 as real) by (nonlinear_arith)
        requires
            m - p >= 0 as real,
            u >= 0 as real,
    ;
    assert((m + p) * u >= 0 as real) by (nonlinear_arith)
        requires
            m + p >= 0 as real,
            u >= 0 as real,
    ;
    assert((m - p) * u == m * u - p * u) by (nonlinear_arith);
    assert((m + p) * u == m * u + p * u) by (nonlinear_arith);
}

proof fn lemma_mixed(p: real, q: real, u: real)
    ensures
        p + (q - p) * u == p * (1 as real - u) + q * u,
{
    assert(p + (q - p) * u == p * (1 as real - u) + q * u) by (nonlinear_arith);
}

/// The product of two numbers that are bounded by `b`.
pub proof fn lemma_bounded_product(u: real, v: real, b: real)
    requires
        extent(u) <= b,
        extent(v) <= b,
    ensures
        extent(u * v) <= b * b,
{
    assert((b - u) * (b + v) >= 0 as real && (b + u) * (b - v) >= 0 as real) by (nonlinear_arith)
        requires
            b - u >= 0 as real,
            b + u >= 0 as real,
            b - v >= 0 as real,
            b + v >= 0 as real,
    ;
    assert((b - u) * (b - v) >= 0 as real && (b + u) * (b + v) >= 0 as real) by (nonlinear_arith)
        requires
            b - u >= 0 as real,
            b + u >= 0 as real,
            b - v >= 0 as real,
            b + v >= 0 as real,
    ;
    assert((b - u) * (b + v) == b * b + b * v - u * b - u * v) by (nonlinear_arith);
    assert((b + u) * (b - v) == b * b - b * v + u * b - u * v) by (nonlinear_arith);
    assert((b - u) * (b - v) == b * b - b * v - u * b + u * v) by (nonlinear_arith);
    assert((b + u) * (b + v) == b * b + b * v + u * b + u * v) by (nonlinear_arith);
}

/// A part of a number that is bounded by `m`, with a sign.
pub proof fn lemma_bounded_part(x: real, u: real, m: real)
    requires
        extent(x) <= m,
        extent(u) <= 1 as real,
    ensures
        extent(x * u) <= m,
{
    let w = extent(u);
    lemma_share_of(x, m, w);
    assert(m * w <= m) by (nonlinear_arith)
        requires
            m >= 0 as real,
            w <= 1 as real,
    ;
    if u < 0 as real {
        assert(x * w == -(x * u)) by (nonlinear_arith)
            requires
                w == -u,
        ;
    }
}

/// One coordinate of a point of a move.
proof fn lemma_way<A: Arithmetic>(
    a: &A,
    p: Scalar,
    q: Scalar,
    t: Scalar,
    m: real,
    bound: real,
    eps: real,
)
    requires
        precise(a, bound, eps),
        p.finite() && q.finite() && t.finite(),
        extent(worth(p)) <= m && extent(worth(q)) <= m,
        0 as real <= worth(t) <= 1 as real,
        0 as real <= eps <= 1 as real,
        10 as real * m + 10 as real <= bound,
    ensures
        gives(
            plus(a, p, times(a, t, minus(a, q, p))),
            between(worth(p), worth(q), worth(t)),
            3 as real * eps,
        ),
        extent(between(worth(p), worth(q), worth(t))) <= m,
{
    let d = minus(a, q, p);
    let full = worth(q) - worth(p);
    let u = worth(t);
    assert(gives(d, full, eps));
    lemma_product(worth(d), u, full, u, eps, 0 as real);
    assert(eps * extent(u) <= eps) by (nonlinear_arith)
        requires
            0 as real <= extent(u) <= 1 as real,
            eps >= 0 as real,
    ;
    assert(u * worth(d) == worth(d) * u) by (nonlinear_arith);
    assert(extent(full * u) <= 2 as real * m) by (nonlinear_arith)
        requires
            extent(full) <= 2 as real * m,
            0 as real <= u <= 1 as real,
    ;
    let w = times(a, t, d);
    assert(gives(w, u * worth(d), eps));
    lemma_share_of(worth(p), m, 1 as real - u);
    lemma_share_of(worth(q), m, u);
    lemma_mixed(worth(p), worth(q), u);
    lemma_mixed(m, m, u);
    assert(gives(plus(a, p, w), worth(p) + worth(w), eps));
}

/// The square of the distance from a coordinate to that of a point of a move.
proof fn lemma_side<A: Arithmetic>(
    a: &A,
    c: Scalar,
    p: Scalar,
    q: Scalar,
    t: Scalar,
    m: real,
    bound: real,
    eps: real,
    big: real,
    coarse: real,
)
    requires
        precise(a, bound, eps),
        precise(a, big, coarse),
        p.finite() && q.finite() && t.finite() && c.finite(),
        extent(worth(p)) <= m && extent(worth(q)) <= m && extent(worth(c)) <= m,
        0 as real <= worth(t) <= 1 as real,
        0 as real <= eps <= 1 as real,
        m >= 0 as real,
        10 as real * m + 10 as real <= bound,
        40 as real * (m * m) + 80 as real * m + 80 as real <= big,
    ensures
        ({
            let w = plus(a, p, times(a, t, minus(a, q, p)));
            let d = minus(a, c, w);
            let full = worth(c) - between(worth(p), worth(q), worth(t));
            &&& gives(
                times(a, d, d),
                full * full,
                16 as real * (eps * (m + 1 as real)) + coarse,
            )
            &&& full * full <= 4 as real * (m * m)
            &&& worth(times(a, d, d)) >= 0 as real
        }),
{
    lemma_way(a, p, q, t, m, bound, eps);
    let w = plus(a, p, times(a, t, minus(a, q, p)));
    let d = minus(a, c, w);
    let full = worth(c) - between(worth(p), worth(q), worth(t));
    let e = 4 as real * eps;
    assert(gives(d, full, e));
    lemma_product(worth(d), worth(d), full, full, e, e);
    assert(extent(full) <= 2 as real * m);
    assert(e * extent(full) <= e * (2 as real * m)) by (nonlinear_arith)
        requires
            extent(full) <= 2 as real * m,
            e >= 0 as real,
    ;
    assert(e * e <= 16 as real * eps) by (nonlinear_arith)
        requires
            e == 4 as real * eps,
            0 as real <= eps <= 1 as real,
    ;
    assert(2 as real * (e * (2 as real * m)) + 16 as real * eps == 16 as real * (eps * (m
        + 1 as real))) by (nonlinear_arith)
        requires
            e == 4 as real * eps,
    ;
    lemma_bounded_product(full, full, 2 as real * m);
    assert((2 as real * m) * (2 as real * m) == 4 as real * (m * m)) by (nonlinear_arith);
    assert(full * full >= 0 as real) by (nonlinear_arith);
    assert(eps * (m + 1 as real) <= m + 1 as real) by (nonlinear_arith)
        requires
            0 as real <= eps <= 1 as real,
            m >= 0 as real,
    ;
}

/// A product of two differences.
proof fn lemma_differences<A: Arithmetic>(
    a: &A,
    c: Scalar,
    q: Scalar,
    p: Scalar,
    m: real,
    bound: real,
    eps: real,
    big: real,
    coarse: real,
)
    requires
        precise(a, bound, eps),
        precise(a, big, coarse),
        p.finite() && q.finite() && c.finite(),
        extent(worth(p)) <= m && extent(worth(q)) <= m && extent(worth(c)) <= m,
        0 as real <= eps <= 1 as real,
        m >= 0 as real,
        10 as real * m + 10 as real <= bound,
        40 as real * (m * m) + 80 as real * m + 80 as real <= big,
    ensures
        gives(
            times(a, minus(a, c, p), minus(a, q, p)),
            (worth(c) - worth(p)) * (worth(q) - worth(p)),
            square_slack(m, eps, coarse),
        ),
        extent((worth(c) - worth(p)) * (worth(q) - worth(p))) <= 4 as real * (m * m),
{
    let (x, y) = (minus(a, c, p), minus(a, q, p));
    let (u, v) = (worth(c) - worth(p), worth(q) - worth(p));
    lemma_product(worth(x), worth(y), u, v, eps, eps);
    assert(eps * extent(u) <= eps * (2 as real * m)) by (nonlinear_arith)
        requires
            extent(u) <= 2 as real * m,
            eps >= 0 as real,
    ;
    assert(eps * extent(v) <= eps * (2 as real * m)) by (nonlinear_arith)
        requires
            extent(v) <= 2 as real * m,
            eps >= 0 as real,
    ;
    assert(eps * eps <= eps) by (nonlinear_arith)
        requires
            0 as real <= eps <= 1 as real,
    ;
    assert(eps * (2 as real * m) <= 2 as real * m) by (nonlinear_arith)
        requires
            0 as real <= eps <= 1 as real,
            m >= 0 as real,
    ;
    lemma_bounded_product(u, v, 2 as real * m);
    assert((2 as real * m) * (2 as real * m) == 4 as real * (m * m)) by (nonlinear_arith);
    assert(eps * (4 as real * m + 1 as real) == 2 as real * (eps * (2 as real * m)) + eps)
        by (nonlinear_arith);
}

/// Where the squared distance is least: `l` is the squared length of the move, and `d` how far along
/// it the point lies, times its length.
proof fn lemma_least(x: real, y: real, dx: real, dy: real, l: real, d: real, t: real, u: real)
    requires
        l == dx * dx + dy * dy,
        d == x * dx + y * dy,
    ensures
        ({
            let before = (x - dx * t) * (x - dx * t) + (y - dy * t) * (y - dy * t);
            let after = (x - dx * u) * (x - dx * u) + (y - dy * u) * (y - dy * u);
            after - before == (u - t) * (2 as real * (t * l - d)) + (u - t) * (u - t) * l
        }),
{
    lemma_expand(x, dx, t);
    lemma_expand(y, dy, t);
    lemma_expand(x, dx, u);
    lemma_expand(y, dy, u);
    lemma_gather(x * dx, y * dy, t);
    lemma_gather(x * dx, y * dy, u);
    lemma_gather(dx * dx, dy * dy, t * t);
    lemma_gather(dx * dx, dy * dy, u * u);
    lemma_steps(l, d, t, u);
}

proof fn lemma_expand(x: real, d: real, t: real)
    ensures
        (x - d * t) * (x - d * t) == x * x - 2 as real * (t * (x * d)) + (t * t) * (d * d),
{
    let w = d * t;
    assert((x - w) * (x - w) == x * x - 2 as real * (x * w) + w * w) by (nonlinear_arith);
    assert(x * w == t * (x * d)) by (nonlinear_arith)
        requires
            w == d * t,
    ;
    assert(w * w == (t * t) * (d * d)) by (nonlinear_arith)
        requires
            w == d * t,
    ;
}

proof fn lemma_gather(p: real, q: real, t: real)
    ensures
        t * p + t * q == t * (p + q),
{
    assert(t * p + t * q == t * (p + q)) by (nonlinear_arith);
}

proof fn lemma_steps(l: real, d: real, t: real, u: real)
    ensures
        (u * u) * l - (t * t) * l - 2 as real * (u * d) + 2 as real * (t * d) == (u - t) * (
        2 as real * (t * l - d)) + (u - t) * (u - t) * l,
{
    let w = u - t;
    assert((u - t) * (u - t) == u * u - 2 as real * (u * t) + t * t) by (nonlinear_arith);
    assert((u - t) * (2 as real * (t * l - d)) == 2 as real * (u * (t * l)) - 2 as real * (t * (t
        * l)) - 2 as real * (u * d) + 2 as real * (t * d)) by (nonlinear_arith);
    assert((u * u - 2 as real * (u * t) + t * t) * l == (u * u) * l - 2 as real * ((u * t) * l) + (
    t * t) * l) by (nonlinear_arith);
    assert((u * t) * l == u * (t * l) && (t * t) * l == t * (t * l)) by (nonlinear_arith);
}

/// Near the least point no other point is much nearer.
proof fn lemma_aim(l: real, s: real, w: real, g: real)
    requires
        l >= 0 as real,
        g >= 0 as real,
        -1 as real <= w <= 1 as real,
        w > 0 as real ==> s >= -g,
        w < 0 as real ==> s <= g,
    ensures
        w * (2 as real * s) + w * w * l >= -(2 as real * g),
{
    assert(w * (2 as real * s) == 2 as real * (w * s)) by (nonlinear_arith);
    assert(w * w * l >= 0 as real) by {
        assert(w * w >= 0 as real) by (nonlinear_arith);
        let v = w * w;
        assert(v * l >= 0 as real) by (nonlinear_arith)
            requires
                v >= 0 as real,
                l >= 0 as real,
        ;
    }
    if w > 0 as real {
        assert(w * s >= w * (-g)) by (nonlinear_arith)
            requires
                s >= -g,
                w > 0 as real,
        ;
        assert(w * (-g) >= -g) by (nonlinear_arith)
            requires
                g >= 0 as real,
                w <= 1 as real,
        ;
    } else if w < 0 as real {
        assert(w * s >= w * g) by (nonlinear_arith)
            requires
                s <= g,
                w < 0 as real,
        ;
        assert(w * g >= -g) by (nonlinear_arith)
            requires
                g >= 0 as real,
                w >= -1 as real,
        ;
    } else {
        assert(w * s == 0 as real) by (nonlinear_arith)
            requires
                w == 0 as real,
        ;
    }
}

/// A part of a way, found by a division and moved between nothing and the whole.
proof fn lemma_part_found<A: Arithmetic>(a: &A, x: Scalar, y: Scalar, tiny: real) -> (t: Scalar)
    requires
        precise(a, 2 as real, tiny),
        keeps_sides(a),
        tiny >= 0 as real,
        x.finite() && y.finite(),
        worth(y) > 0 as real,
    ensures
        t == over(a, x, y).clamped(Scalar { bits: 0 }, Scalar { bits: ONE }),
        t.finite(),
        0 as real <= worth(t) <= 1 as real,
        worth(t) < 1 as real ==> worth(t) * worth(y) >= worth(x) - tiny * worth(y),
        worth(t) > 0 as real ==> worth(t) * worth(y) <= worth(x) + tiny * worth(y),
{
    let zero = Scalar { bits: 0 };
    let one = Scalar { bits: ONE };
    let q = over(a, x, y);
    let t = q.clamped(zero, one);
    lemma_worth_of_constants();
    let (u, v) = (worth(x), worth(y));
    assert(tiny * v >= 0 as real) by (nonlinear_arith)
        requires
            tiny >= 0 as real,
            v > 0 as real,
    ;
    if u <= 0 as real {
        assert(q.at_most(zero));
        if !q.below(zero) {
            assert(q.rank() == 0);
            assert(q.finite());
            lemma_worth_order(q, zero);
            lemma_worth_order(zero, q);
        }
        assert(worth(t) == 0 as real);
        assert(0 as real * v == 0 as real);
    } else if u >= v {
        assert(one.at_most(q));
        if !one.below(q) {
            assert(q.rank() == one.rank());
            assert(q.finite());
            lemma_worth_order(q, one);
            lemma_worth_order(one, q);
        } else if q.below(zero) {
            assert(false);
        }
        assert(worth(t) == 1 as real);
        assert(1 as real * v == v);
    } else {
        let r = u / v;
        assert(0 as real <= r <= 1 as real && r * v == u) by (nonlinear_arith)
            requires
                r == u / v,
                u > 0 as real,
                u < v,
        ;
        assert(gives(q, r, tiny));
        lemma_worth_order(q, zero);
        lemma_worth_order(one, q);
        let w = worth(t);
        assert(near(w, r, tiny));
        assert(0 as real <= w <= 1 as real);
        assert(-(tiny * v) <= (w - r) * v <= tiny * v) by (nonlinear_arith)
            requires
                -tiny <= w - r <= tiny,
                v > 0 as real,
        ;
        assert((w - r) * v == w * v - r * v) by (nonlinear_arith);
    }
    t
}

/// The squared length of a move in the plane, and how far along it a point lies, times its length.
proof fn lemma_sums<A: Arithmetic>(
    a: &A,
    seg: Segment,
    cx: Scalar,
    cy: Scalar,
    m: real,
    bound: real,
    eps: real,
    big: real,
    coarse: real,
)
    requires
        precise(a, bound, eps),
        precise(a, big, coarse),
        placed3(seg.start, m) && placed3(seg.end, m),
        cx.finite() && cy.finite(),
        extent(worth(cx)) <= m && extent(worth(cy)) <= m,
        0 as real <= eps <= 1 as real,
        coarse >= 0 as real,
        m >= 0 as real,
        10 as real * m + 10 as real <= bound,
        40 as real * (m * m) + 80 as real * m + 80 as real + 10 as real * coarse <= big,
    ensures
        ({
            let dx = minus(a, seg.end.x, seg.start.x);
            let dy = minus(a, seg.end.y, seg.start.y);
            let (fx, fy) = (
                worth(seg.end.x) - worth(seg.start.x),
                worth(seg.end.y) - worth(seg.start.y),
            );
            let (x, y) = (worth(cx) - worth(seg.start.x), worth(cy) - worth(seg.start.y));
            let e = sum_slack(m, eps, coarse);
            &&& gives(plus(a, times(a, dx, dx), times(a, dy, dy)), fx * fx + fy * fy, e)
            &&& gives(
                plus(
                    a,
                    times(a, minus(a, cx, seg.start.x), dx),
                    times(a, minus(a, cy, seg.start.y), dy),
                ),
                x * fx + y * fy,
                e,
            )
            &&& 0 as real <= fx * fx + fy * fy <= 8 as real * (m * m)
            &&& 0 as real <= e
        }),
{
    assert(m * m >= 0 as real) by (nonlinear_arith);
    let e = square_slack(m, eps, coarse);
    assert(0 as real <= eps * (4 as real * m + 1 as real) <= 4 as real * m + 1 as real)
        by (nonlinear_arith)
        requires
            0 as real <= eps <= 1 as real,
            m >= 0 as real,
    ;
    lemma_square(a, seg.end.x, seg.start.x, m, bound, eps, big, coarse);
    lemma_square(a, seg.end.y, seg.start.y, m, bound, eps, big, coarse);
    lemma_differences(a, cx, seg.end.x, seg.start.x, m, bound, eps, big, coarse);
    lemma_differences(a, cy, seg.end.y, seg.start.y, m, bound, eps, big, coarse);
    let dx = minus(a, seg.end.x, seg.start.x);
    let dy = minus(a, seg.end.y, seg.start.y);
    let (x2, y2) = (times(a, dx, dx), times(a, dy, dy));
    assert(gives(plus(a, x2, y2), worth(x2) + worth(y2), coarse));
    let (xx, yy) = (
        times(a, minus(a, cx, seg.start.x), dx),
        times(a, minus(a, cy, seg.start.y), dy),
    );
    assert(gives(plus(a, xx, yy), worth(xx) + worth(yy), coarse));
}

/// A length whose square is no more than that of `short` is no more than `short`.
pub proof fn lemma_root(x: real, short: real)
    requires
        short >= 0 as real,
        x * x <= short * short,
    ensures
        extent(x) <= short,
{
    if extent(x) > short {
        let y = extent(x);
        assert(y * y > short * short) by (nonlinear_arith)
            requires
                y > short,
                short >= 0 as real,
        ;
        assert(y * y == x * x) by (nonlinear_arith)
            requires
                y == x || y == -x,
        ;
    }
}

/// The distance of a point from a move is that to the nearest point of it, and the height is the
/// height there: no other point of the move is nearer, up to rounding.
pub proof fn lemma_nearest_point<A: Arithmetic>(
    a: &A,
    seg: Segment,
    cx: Scalar,
    cy: Scalar,
    m: real,
    tiny: real,
    bound: real,
    eps: real,
    big: real,
    coarse: real,
    short: real,
) -> (t: real)
    requires
        cuttable(a, seg, m, tiny, bound, eps, big, coarse, short),
        cx.finite() && cy.finite(),
        extent(worth(cx)) <= m && extent(worth(cy)) <= m,
    ensures
        0 as real <= t <= 1 as real,
        ({
            let (d2, z) = spec_approach(a, seg, cx, cy);
            &&& gives(d2, gap(seg, worth(cx), worth(cy), t), gap_slack(m, eps, coarse))
            &&& gives(z, between(worth(seg.start.z), worth(seg.end.z), t), 3 as real * eps)
        }),
        forall|u: real|
            0 as real <= u <= 1 as real ==> gap(seg, worth(cx), worth(cy), t) <= #[trigger] gap(
                seg,
                worth(cx),
                worth(cy),
                u,
            ) + aim_slack(m, tiny, eps, coarse, short),
{
    let zero = Scalar { bits: 0 };
    let none = Scalar { bits: NO_LENGTH };
    let dx = minus(a, seg.end.x, seg.start.x);
    let dy = minus(a, seg.end.y, seg.start.y);
    let (fx, fy) = (
        worth(seg.end.x) - worth(seg.start.x),
        worth(seg.end.y) - worth(seg.start.y),
    );
    let (x, y) = (worth(cx) - worth(seg.start.x), worth(cy) - worth(seg.start.y));
    let e = sum_slack(m, eps, coarse);
    let len2 = plus(a, times(a, dx, dx), times(a, dy, dy));
    let dot = plus(
        a,
        times(a, minus(a, cx, seg.start.x), dx),
        times(a, minus(a, cy, seg.start.y), dy),
    );
    let l = fx * fx + fy * fy;
    let d = x * fx + y * fy;
    lemma_sums(a, seg, cx, cy, m, bound, eps, big, coarse);
    lemma_worth_of_constants();
    assert(none.finite());
    lemma_worth_order(zero, none);
    lemma_worth_order(len2, none);
    assert(short * m >= 0 as real) by (nonlinear_arith)
        requires
            short >= 0 as real,
            m >= 0 as real,
    ;
    let far = m * m;
    assert(far >= 0 as real) by (nonlinear_arith)
        requires
            far == m * m,
    ;
    assert(tiny * far >= 0 as real) by (nonlinear_arith)
        requires
            tiny >= 0 as real,
            far >= 0 as real,
    ;
    let g = 3 as real * e + 8 as real * (tiny * far) + 4 as real * (short * m);
    let part = if len2.below(none) {
        zero
    } else {
        lemma_part_found(a, dot, len2, tiny)
    };
    let t = worth(part);
    if len2.below(none) {
        assert(fx * fx >= 0 as real && fy * fy >= 0 as real) by (nonlinear_arith);
        lemma_root(fx, short);
        lemma_root(fy, short);
        lemma_long(x, fx, m, short);
        lemma_long(y, fy, m, short);
        assert(0 as real * l == 0 as real);
        assert(-g <= t * l - d <= g);
    } else {
        let (lw, dw) = (worth(len2), worth(dot));
        assert(tiny * lw <= 8 as real * (tiny * far) + e) by {
            assert(tiny * lw <= tiny * (8 as real * far + e)) by (nonlinear_arith)
                requires
                    lw <= 8 as real * far + e,
                    tiny >= 0 as real,
            ;
            assert(tiny * (8 as real * far + e) == 8 as real * (tiny * far) + tiny * e)
                by (nonlinear_arith);
            assert(tiny * e <= e) by (nonlinear_arith)
                requires
                    0 as real <= tiny <= 1 as real,
                    e >= 0 as real,
            ;
        }
        assert(near(t * l, t * lw, e)) by {
            let k = l - lw;
            assert(-e <= t * k <= e) by (nonlinear_arith)
                requires
                    -e <= k <= e,
                    0 as real <= t <= 1 as real,
            ;
            assert(t * k == t * l - t * lw) by (nonlinear_arith)
                requires
                    k == l - lw,
            ;
        }
    }
    let (px, py) = (worth(cx), worth(cy));
    assert forall|u: real| 0 as real <= u <= 1 as real implies gap(seg, px, py, t)
        <= #[trigger] gap(seg, px, py, u) + aim_slack(m, tiny, eps, coarse, short) by {
        lemma_least(x, y, fx, fy, l, d, t, u);
        lemma_aim(l, t * l - d, u - t, g);
        assert(px - between(worth(seg.start.x), worth(seg.end.x), t) == x - fx * t);
        assert(py - between(worth(seg.start.y), worth(seg.end.y), t) == y - fy * t);
        assert(px - between(worth(seg.start.x), worth(seg.end.x), u) == x - fx * u);
        assert(py - between(worth(seg.start.y), worth(seg.end.y), u) == y - fy * u);
    }
    lemma_side(a, cx, seg.start.x, seg.end.x, part, m, bound, eps, big, coarse);
    lemma_side(a, cy, seg.start.y, seg.end.y, part, m, bound, eps, big, coarse);
    lemma_way(a, seg.start.z, seg.end.z, part, m, bound, eps);
    assert(0 as real <= eps * (m + 1 as real) <= m + 1 as real) by (nonlinear_arith)
        requires
            0 as real <= eps <= 1 as real,
            m >= 0 as real,
    ;
    let wx = minus(a, cx, plus(a, seg.start.x, times(a, part, dx)));
    let wy = minus(a, cy, plus(a, seg.start.y, times(a, part, dy)));
    let (x2, y2) = (times(a, wx, wx), times(a, wy, wy));
    assert(gives(plus(a, x2, y2), worth(x2) + worth(y2), coarse));
    t
}

/// A short way along a move, times how far the point is away.
proof fn lemma_long(x: real, f: real, m: real, short: real)
    requires
        extent(x) <= 2 as real * m,
        extent(f) <= short,
        m >= 0 as real,
    ensures
        extent(x * f) <= 2 as real * (short * m),
{
    if f >= 0 as real {
        lemma_share_of(x, 2 as real * m, f);
    } else {
        lemma_share_of(x, 2 as real * m, -f);
        assert(x * (-f) == -(x * f)) by (nonlinear_arith);
    }
    let w = extent(f);
    assert((2 as real * m) * w <= 2 as real * (short * m)) by (nonlinear_arith)
        requires
            w <= short,
            m >= 0 as real,
    ;
}

/// Whether rounding down and up to a count of cells goes no further than it should.
pub open spec fn finds_cells<A: Arithmetic>(a: &A) -> bool {
    &&& forall|x: Scalar, max: u64|
        #![trigger to_unsigned(a, single1(a, Op::Floor, x).greater(Scalar { bits: 0 }), max)]
        x.finite() ==> {
            let n = to_unsigned(a, single1(a, Op::Floor, x).greater(Scalar { bits: 0 }), max);
            n > 0 ==> n as real <= worth(x)
        }
    &&& forall|x: Scalar, max: u64|
        #![trigger to_unsigned(a, single1(a, Op::Ceil, x), max)]
        x.finite() ==> {
            let n = to_unsigned(a, single1(a, Op::Ceil, x), max);
            n < max ==> n as real >= worth(x)
        }
}

/// Whether cells from `min` on are so wide that rounding does not move them by half their width, and
/// the cell `i` lies no further than `m` from the origin.
pub open spec fn laid_out(min: Scalar, res: Scalar, i: int, m: real, bound: real, eps: real) -> bool {
    &&& min.finite() && res.finite()
    &&& extent(worth(min)) <= m
    &&& worth(res) > 0 as real
    &&& 10 as real * eps + 4 as real * (eps * worth(res)) <= worth(res)
    &&& 0 <= i < 0x100_0000
    &&& worth(min) + (i as real + 1 as real) * worth(res) <= m
    &&& 4 as real * m + 4 as real <= bound * worth(res)
}

/// Where the middle of the cell `i` is.
pub open spec fn cell_middle(min: Scalar, res: Scalar, i: int) -> real {
    worth(min) + (i as real + worth(Scalar { bits: HALF })) * worth(res)
}

/// The middle of a cell is half a cell behind its start, up to rounding.
pub proof fn lemma_middle<A: Arithmetic>(
    a: &A,
    min: Scalar,
    res: Scalar,
    i: usize,
    m: real,
    bound: real,
    eps: real,
)
    requires
        precise(a, bound, eps),
        0 as real <= eps <= 1 as real,
        10 as real * m + 10 as real <= bound,
        laid_out(min, res, i as int, m, bound, eps),
    ensures
        gives(
            spec_middle(a, min, res, i),
            cell_middle(min, res, i as int),
            eps * worth(res) + 2 as real * eps,
        ),
        extent(worth(spec_middle(a, min, res, i))) <= m,
{
    lemma_worth_of_constants();
    let half = Scalar { bits: HALF };
    let w = worth(res);
    let n = single_of(a, i as u64);
    assert(worth(n) == i as real);
    let h = i as real + worth(half);
    assert((i as real + 1 as real) * w == h * w + worth(half) * w) by (nonlinear_arith)
        requires
            h == i as real + worth(half),
            2 as real * worth(half) == 1 as real,
    ;
    assert(2 as real * (worth(half) * w) == w) by (nonlinear_arith)
        requires
            2 as real * worth(half) == 1 as real,
    ;
    assert(h * w >= worth(half) * w) by (nonlinear_arith)
        requires
            h >= worth(half),
            w > 0 as real,
    ;
    assert(h <= bound) by {
        if h > bound {
            assert(h * w >= bound * w) by (nonlinear_arith)
                requires
                    h > bound,
                    w > 0 as real,
            ;
        }
    }
    let k = plus(a, n, half);
    assert(gives(k, h, eps));
    let kw = worth(k);
    assert(near(kw * w, h * w, eps * w)) by {
        let e = kw - h;
        assert(-(eps * w) <= e * w <= eps * w) by (nonlinear_arith)
            requires
                -eps <= e <= eps,
                w > 0 as real,
        ;
        assert(e * w == kw * w - h * w) by (nonlinear_arith)
            requires
                e == kw - h,
        ;
    }
    assert(0 as real <= eps * w) by (nonlinear_arith)
        requires
            eps >= 0 as real,
            w > 0 as real,
    ;
    let p = times(a, k, res);
    assert(gives(p, kw * w, eps));
    assert(gives(plus(a, min, p), worth(min) + worth(p), eps));
}

/// A quotient by the width of a cell.
proof fn lemma_cells_to<A: Arithmetic>(
    a: &A,
    x: Scalar,
    min: Scalar,
    res: Scalar,
    v: real,
    m: real,
    bound: real,
    eps: real,
)
    requires
        precise(a, bound, eps),
        0 as real <= eps <= 1 as real,
        10 as real * m + 10 as real <= bound,
        gives(x, v, 2 as real * eps),
        extent(v) <= 2 as real * m,
        min.finite() && res.finite(),
        extent(worth(min)) <= m,
        worth(res) > 0 as real,
        4 as real * m + 4 as real <= bound * worth(res),
    ensures
        ({
            let q = over(a, minus(a, x, min), res);
            &&& q.finite()
            &&& near(worth(q) * worth(res), v - worth(min), 3 as real * eps + eps * worth(res))
        }),
{
    let d = minus(a, x, min);
    assert(gives(d, worth(x) - worth(min), eps));
    let (u, w) = (worth(d), worth(res));
    let r = u / w;
    assert(r * w == u) by (nonlinear_arith)
        requires
            r == u / w,
            w > 0 as real,
    ;
    assert(extent(r) <= bound) by {
        if r > bound {
            assert(r * w >= bound * w) by (nonlinear_arith)
                requires
                    r > bound,
                    w > 0 as real,
            ;
        } else if -r > bound {
            assert((-r) * w >= bound * w) by (nonlinear_arith)
                requires
                    -r > bound,
                    w > 0 as real,
            ;
            assert((-r) * w == -(r * w)) by (nonlinear_arith);
        }
    }
    let q = over(a, d, res);
    assert(gives(q, r, eps));
    let e = worth(q) - r;
    assert(-(eps * w) <= e * w <= eps * w) by (nonlinear_arith)
        requires
            -eps <= e <= eps,
            w > 0 as real,
    ;
    assert(e * w == worth(q) * w - r * w) by (nonlinear_arith)
        requires
            e == worth(q) - r,
    ;
}

/// A cell before the first that the tool may reach is out of its reach.
proof fn lemma_before_first<A: Arithmetic>(
    a: &A,
    x: Scalar,
    radius: Scalar,
    min: Scalar,
    res: Scalar,
    n: usize,
    i: usize,
    r: real,
    m: real,
    bound: real,
    eps: real,
)
    requires
        precise(a, bound, eps),
        finds_cells(a),
        0 as real <= eps <= 1 as real,
        10 as real * m + 10 as real <= bound,
        laid_out(min, res, i as int, m, bound, eps),
        x.finite(),
        extent(worth(x)) <= m,
        gives(radius, r, eps),
        0 as real <= r <= m,
        i < first_cell(a, minus(a, x, radius), min, res, n),
    ensures
        worth(spec_middle(a, min, res, i)) <= worth(x) - r,
{
    let y = minus(a, x, radius);
    assert(gives(y, worth(x) - worth(radius), eps));
    let w = worth(res);
    lemma_cells_to(a, y, min, res, worth(x) - r, m, bound, eps);
    lemma_middle(a, min, res, i, m, bound, eps);
    lemma_worth_of_constants();
    let q = over(a, minus(a, y, min), res);
    let k = to_unsigned(a, single1(a, Op::Floor, q).greater(Scalar { bits: 0 }), n as u64);
    assert(k > 0 ==> k as real <= worth(q));
    assert(i + 1 <= k);
    let c = i as real + 1 as real;
    assert(c <= k as real);
    assert(c * w <= worth(q) * w) by (nonlinear_arith)
        requires
            c <= worth(q),
            w > 0 as real,
    ;
    let half = worth(Scalar { bits: HALF });
    lemma_half_step(i as real, half, w);
}

proof fn lemma_half_step(i: real, half: real, w: real)
    requires
        2 as real * half == 1 as real,
    ensures
        2 as real * ((i + half) * w) == 2 as real * (i * w) + w,
        (i + 1 as real) * w == i * w + w,
{
    assert((i + half) * w == i * w + half * w) by (nonlinear_arith);
    assert(2 as real * (half * w) == w) by (nonlinear_arith)
        requires
            2 as real * half == 1 as real,
    ;
    assert((i + 1 as real) * w == i * w + w) by (nonlinear_arith);
}

/// A cell behind the last that the tool may reach is out of its reach.
proof fn lemma_behind_last<A: Arithmetic>(
    a: &A,
    x: Scalar,
    radius: Scalar,
    min: Scalar,
    res: Scalar,
    n: usize,
    i: usize,
    r: real,
    m: real,
    bound: real,
    eps: real,
)
    requires
        precise(a, bound, eps),
        finds_cells(a),
        0 as real <= eps <= 1 as real,
        10 as real * m + 10 as real <= bound,
        laid_out(min, res, i as int, m, bound, eps),
        x.finite(),
        extent(worth(x)) <= m,
        gives(radius, r, eps),
        0 as real <= r <= m,
        end_cell(a, plus(a, x, radius), min, res, n) <= i < n,
    ensures
        worth(spec_middle(a, min, res, i)) >= worth(x) + r,
{
    let y = plus(a, x, radius);
    assert(gives(y, worth(x) + worth(radius), eps));
    let w = worth(res);
    lemma_cells_to(a, y, min, res, worth(x) + r, m, bound, eps);
    lemma_middle(a, min, res, i, m, bound, eps);
    lemma_worth_of_constants();
    let q = over(a, minus(a, y, min), res);
    let k = to_unsigned(a, single1(a, Op::Ceil, q), n as u64);
    assert(k < n ==> k as real >= worth(q));
    let c = i as real;
    assert(c >= k as real);
    assert(c * w >= worth(q) * w) by (nonlinear_arith)
        requires
            c >= worth(q),
            w > 0 as real,
    ;
    let half = worth(Scalar { bits: HALF });
    lemma_half_step(i as real, half, w);
}

/// How far the square of the tool's reach may be off, compared with that of a distance.
pub open spec fn reach_slack(m: real, eps: real, coarse: real) -> real {
    gap_slack(m, eps, coarse) + eps * (2 as real * m + 1 as real) + coarse
}

/// Half of the tool's diameter.
pub open spec fn reach(f: &MaterialField) -> real {
    worth(f.endmill_diameter) * worth(Scalar { bits: HALF })
}

/// The middle of a cell, as it is computed.
pub open spec fn middle_at<A: Arithmetic>(a: &A, f: &MaterialField, ix: int, iy: int) -> (real, real) {
    (
        worth(spec_middle(a, f.bbox_min_x, f.res, ix as usize)),
        worth(spec_middle(a, f.bbox_min_y, f.res, iy as usize)),
    )
}

/// The square of the tool's reach.
proof fn lemma_reach<A: Arithmetic>(
    a: &A,
    f: &MaterialField,
    m: real,
    bound: real,
    eps: real,
    big: real,
    coarse: real,
)
    requires
        precise(a, bound, eps),
        precise(a, big, coarse),
        f.endmill_diameter.finite(),
        0 as real <= reach(f) <= m,
        0 as real <= eps <= 1 as real,
        10 as real * m + 10 as real <= bound,
        40 as real * (m * m) + 80 as real * m + 80 as real <= big,
    ensures
        ({
            let radius = times(a, f.endmill_diameter, Scalar { bits: HALF });
            &&& gives(radius, reach(f), eps)
            &&& gives(
                times(a, radius, radius),
                reach(f) * reach(f),
                eps * (2 as real * m + 1 as real) + coarse,
            )
        }),
{
    lemma_worth_of_constants();
    let radius = times(a, f.endmill_diameter, Scalar { bits: HALF });
    let r = reach(f);
    assert(gives(radius, r, eps));
    lemma_product(worth(radius), worth(radius), r, r, eps, eps);
    assert(eps * extent(r) <= eps * m) by (nonlinear_arith)
        requires
            extent(r) <= m,
            eps >= 0 as real,
    ;
    assert(eps * eps <= eps) by (nonlinear_arith)
        requires
            0 as real <= eps <= 1 as real,
    ;
    assert(eps * m <= m) by (nonlinear_arith)
        requires
            0 as real <= eps <= 1 as real,
            m >= 0 as real,
    ;
    assert(eps * (2 as real * m + 1 as real) == 2 as real * (eps * m) + eps) by (nonlinear_arith);
    lemma_bounded_product(r, r, m);
}

/// A point that is further than `r` from a whole move along an axis is further than `r` from each
/// of its points.
proof fn lemma_out_of_reach(seg: Segment, x: real, y: real, u: real, r: real)
    requires
        0 as real <= u <= 1 as real,
        r >= 0 as real,
        ({
            let (sx, ex) = (worth(seg.start.x), worth(seg.end.x));
            let (sy, ey) = (worth(seg.start.y), worth(seg.end.y));
            ||| x <= sx - r && x <= ex - r
            ||| x >= sx + r && x >= ex + r
            ||| y <= sy - r && y <= ey - r
            ||| y >= sy + r && y >= ey + r
        }),
    ensures
        gap(seg, x, y, u) >= r * r,
{
    let (sx, ex) = (worth(seg.start.x), worth(seg.end.x));
    let (sy, ey) = (worth(seg.start.y), worth(seg.end.y));
    let dx = x - between(sx, ex, u);
    let dy = y - between(sy, ey, u);
    lemma_aside(sx, ex, x, u, r);
    lemma_aside(sy, ey, y, u, r);
    assert(dx * dx >= 0 as real && dy * dy >= 0 as real) by (nonlinear_arith);
}

proof fn lemma_aside(p: real, q: real, x: real, u: real, r: real)
    requires
        0 as real <= u <= 1 as real,
        r >= 0 as real,
    ensures
        ({
            let d = x - between(p, q, u);
            (x <= p - r && x <= q - r) || (x >= p + r && x >= q + r) ==> d * d >= r * r
        }),
{
    let d = x - between(p, q, u);
    lemma_mixed(x - p, x - q, u);
    let (s, t) = (x - p, x - q);
    assert(d == s * (1 as real - u) + t * u) by {
        assert((q - p) * u == -((t - s) * u)) by (nonlinear_arith)
            requires
                s == x - p,
                t == x - q,
        ;
    }
    let v = 1 as real - u;
    assert(r * v + r * u == r) by (nonlinear_arith)
        requires
            v == 1 as real - u,
    ;
    if s >= r && t >= r {
        assert(s * v >= r * v) by (nonlinear_arith)
            requires
                s >= r,
                v >= 0 as real,
        ;
        assert(t * u >= r * u) by (nonlinear_arith)
            requires
                t >= r,
                u >= 0 as real,
        ;
        assert(d * d >= r * r) by (nonlinear_arith)
            requires
                d >= r,
                r >= 0 as real,
        ;
    } else if s <= -r && t <= -r {
        assert(s * v <= (-r) * v) by (nonlinear_arith)
            requires
                s <= -r,
                v >= 0 as real,
        ;
        assert(t * u <= (-r) * u) by (nonlinear_arith)
            requires
                t <= -r,
                u >= 0 as real,
        ;
        assert((-r) * v == -(r * v) && (-r) * u == -(r * u)) by (nonlinear_arith);
        let e = -d;
        assert(e * e >= r * r) by (nonlinear_arith)
            requires
                e >= r,
                r >= 0 as real,
        ;
        assert(e * e == d * d) by (nonlinear_arith)
            requires
                e == -d,
        ;
    }
}

/// A cutting move cuts the cells that the tool passes over, and no others: what is cut is no further
/// from some point of the move than half the tool's diameter, and is cut to the height of the move
/// there; what is not cut is no nearer to any point of it. All up to rounding.
pub proof fn lemma_cut_under_tool<A: Arithmetic>(
    a: &A,
    f: &MaterialField,
    seg: Segment,
    ix: int,
    iy: int,
    m: real,
    tiny: real,
    bound: real,
    eps: real,
    big: real,
    coarse: real,
    short: real,
) -> (t: real)
    requires
        cuttable(a, seg, m, tiny, bound, eps, big, coarse, short),
        finds_cells(a),
        0 <= ix < f.nx,
        0 <= iy < f.ny,
        laid_out(f.bbox_min_x, f.res, ix, m, bound, eps),
        laid_out(f.bbox_min_y, f.res, iy, m, bound, eps),
        f.endmill_diameter.finite(),
        0 as real <= reach(f) <= m,
        !seg.rapid,
        seg.start.z.below(f.z_top) || seg.end.z.below(f.z_top),
    ensures
        0 as real <= t <= 1 as real,
        ({
            let (x, y) = middle_at(a, f, ix, iy);
            let r2 = reach(f) * reach(f);
            let e = reach_slack(m, eps, coarse);
            match cut_depth(a, f, seg, ix, iy) {
                Some(z) => {
                    &&& gap(seg, x, y, t) <= r2 + e
                    &&& gives(z, between(worth(seg.start.z), worth(seg.end.z), t), 3 as real * eps)
                    &&& forall|u: real|
                        0 as real <= u <= 1 as real ==> gap(seg, x, y, t) <= #[trigger] gap(
                            seg,
                            x,
                            y,
                            u,
                        ) + aim_slack(m, tiny, eps, coarse, short)
                },
                None => forall|u: real|
                    0 as real <= u <= 1 as real ==> #[trigger] gap(seg, x, y, u) >= r2 - e
                        - aim_slack(m, tiny, eps, coarse, short),
            }
        }),
{
    let (i, j) = (ix as usize, iy as usize);
    let radius = times(a, f.endmill_diameter, Scalar { bits: HALF });
    let cx = spec_middle(a, f.bbox_min_x, f.res, i);
    let cy = spec_middle(a, f.bbox_min_y, f.res, j);
    let (x, y) = (worth(cx), worth(cy));
    let r = reach(f);
    lemma_middle(a, f.bbox_min_x, f.res, i, m, bound, eps);
    lemma_middle(a, f.bbox_min_y, f.res, j, m, bound, eps);
    lemma_reach(a, f, m, bound, eps, big, coarse);
    let t = lemma_nearest_point(a, seg, cx, cy, m, tiny, bound, eps, big, coarse, short);
    let (d2, z) = spec_approach(a, seg, cx, cy);
    let r2 = times(a, radius, radius);
    lemma_worth_order(r2, d2);
    lemma_sums(a, seg, cx, cy, m, bound, eps, big, coarse);
    lemma_slacks(m, tiny, eps, coarse, short);
    let w = window(a, f, seg, radius);
    if !w.holds(ix, iy) {
        let (sx, ex) = (seg.start.x, seg.end.x);
        let (sy, ey) = (seg.start.y, seg.end.y);
        lemma_worth_order(ex, sx);
        lemma_worth_order(sx, ex);
        lemma_worth_order(ey, sy);
        lemma_worth_order(sy, ey);
        if ix < w.ix0 {
            lemma_before_first(
                a, sx.lesser(ex), radius, f.bbox_min_x, f.res, f.nx, i, r, m, bound, eps,
            );
        } else if ix >= w.ix1 {
            lemma_behind_last(
                a, sx.greater(ex), radius, f.bbox_min_x, f.res, f.nx, i, r, m, bound, eps,
            );
        } else if iy < w.iy0 {
            lemma_before_first(
                a, sy.lesser(ey), radius, f.bbox_min_y, f.res, f.ny, j, r, m, bound, eps,
            );
        } else {
            lemma_behind_last(
                a, sy.greater(ey), radius, f.bbox_min_y, f.res, f.ny, j, r, m, bound, eps,
            );
        }
        assert forall|u: real| 0 as real <= u <= 1 as real implies #[trigger] gap(seg, x, y, u)
            >= r * r - reach_slack(m, eps, coarse) - aim_slack(m, tiny, eps, coarse, short) by {
            lemma_out_of_reach(seg, x, y, u, r);
        }
    }
    t
}

proof fn lemma_slacks(m: real, tiny: real, eps: real, coarse: real, short: real)
    requires
        m >= 0 as real,
        tiny >= 0 as real,
        eps >= 0 as real,
        coarse >= 0 as real,
        short >= 0 as real,
    ensures
        reach_slack(m, eps, coarse) >= 0 as real,
        aim_slack(m, tiny, eps, coarse, short) >= 0 as real,
{
    assert(eps * (m + 1 as real) >= 0 as real) by (nonlinear_arith)
        requires
            eps >= 0 as real,
            m >= 0 as real,
    ;
    assert(eps * (2 as real * m + 1 as real) >= 0 as real) by (nonlinear_arith)
        requires
            eps >= 0 as real,
            m >= 0 as real,
    ;
    assert(eps * (4 as real * m + 1 as real) >= 0 as real) by (nonlinear_arith)
        requires
            eps >= 0 as real,
            m >= 0 as real,
    ;
    assert(short * m >= 0 as real) by (nonlinear_arith)
        requires
            short >= 0 as real,
            m >= 0 as real,
    ;
    let far = m * m;
    assert(far >= 0 as real) by (nonlinear_arith)
        requires
            far == m * m,
    ;
    assert(tiny * far >= 0 as real) by (nonlinear_arith)
        requires
            tiny >= 0 as real,
            far >= 0 as real,
    ;
}

/// A cell is cut where its column and row say, and a cut only ever lowers it: to the height that the
/// move cuts to, where that is below.
pub proof fn lemma_cell_lowered<A: Arithmetic>(
    a: &A,
    f: &MaterialField,
    seg: Segment,
    ix: int,
    iy: int,
    h: Scalar,
)
    requires
        0 <= ix < f.nx,
        0 <= iy,
    ensures
        ({
            let after = height_after(a, f, seg, iy * f.nx + ix, h);
            match cut_depth(a, f, seg, ix, iy) {
                Some(z) => (after == z && z.below(h)) || (after == h && !z.below(h)),
                None => after == h,
            }
        }),
{
    let n = f.nx as int;
    let k = iy * n + ix;
    vstd::arithmetic::div_mod::lemma_fundamental_div_mod_converse(k, n, iy, ix);
}

/// How wide the margin around a job is: the tool's diameter, and at least one.
pub open spec fn margin(endmill_diameter: Scalar) -> real {
    if worth(endmill_diameter) < 1 as real {
        1 as real
    } else {
        worth(endmill_diameter)
    }
}

/// The cells from the margin before `lo` on reach to the margin behind `hi`.
pub proof fn lemma_cells_cover<A: Arithmetic>(
    a: &A,
    lo: Scalar,
    hi: Scalar,
    endmill_diameter: Scalar,
    m: real,
    bound: real,
    eps: real,
)
    requires
        precise(a, bound, eps),
        finds_cells(a),
        0 as real <= eps <= 1 as real,
        lo.finite() && hi.finite() && endmill_diameter.finite(),
        extent(worth(lo)) <= m && extent(worth(hi)) <= m,
        margin(endmill_diameter) <= m,
        10 as real * m + 10 as real <= bound <= 0x100_0000 as real,
        spec_resolution(a, endmill_diameter).finite(),
        worth(spec_resolution(a, endmill_diameter)) > 0 as real,
        4 as real * m + 4 as real <= bound * worth(spec_resolution(a, endmill_diameter)),
    ensures
        ({
            let n = spec_cells(a, lo, hi, endmill_diameter);
            let w = worth(spec_resolution(a, endmill_diameter));
            let pad = margin(endmill_diameter);
            let min = minus(a, lo, endmill_diameter.greater(Scalar { bits: ONE }));
            &&& gives(min, worth(lo) - pad, eps)
            &&& worth(min) + n as real * w >= worth(hi) + pad - 4 as real * eps - eps * w
        }),
{
    lemma_worth_of_constants();
    let one = Scalar { bits: ONE };
    let res = spec_resolution(a, endmill_diameter);
    let w = worth(res);
    let big = endmill_diameter.greater(one);
    lemma_worth_order(endmill_diameter, one);
    let pad = margin(endmill_diameter);
    assert(big.finite() && worth(big) == pad);
    let (v, u) = (plus(a, hi, big), minus(a, lo, big));
    assert(gives(v, worth(hi) + pad, eps));
    assert(gives(u, worth(lo) - pad, eps));
    let d = minus(a, v, u);
    assert(gives(d, worth(v) - worth(u), eps));
    let x = worth(d);
    let r = x / w;
    assert(r * w == x) by (nonlinear_arith)
        requires
            r == x / w,
            w > 0 as real,
    ;
    assert(extent(r) <= bound) by {
        if r > bound {
            assert(r * w >= bound * w) by (nonlinear_arith)
                requires
                    r > bound,
                    w > 0 as real,
            ;
        } else if -r > bound {
            assert((-r) * w >= bound * w) by (nonlinear_arith)
                requires
                    -r > bound,
                    w > 0 as real,
            ;
            assert((-r) * w == -(r * w)) by (nonlinear_arith);
        }
    }
    let q = over(a, d, res);
    assert(gives(q, r, eps));
    let e = worth(q) - r;
    assert(-(eps * w) <= e * w) by (nonlinear_arith)
        requires
            -eps <= e,
            w > 0 as real,
    ;
    assert(e * w == worth(q) * w - r * w) by (nonlinear_arith)
        requires
            e == worth(q) - r,
    ;
    let k = to_unsigned(a, single1(a, Op::Ceil, q), usize::MAX as u64);
    assert(k < usize::MAX as u64 ==> k as real >= worth(q));
    let n = spec_cells(a, lo, hi, endmill_diameter);
    assert(n >= k);
    let c = n as real;
    assert(c >= worth(q));
    assert(c * w >= worth(q) * w) by (nonlinear_arith)
        requires
            c >= worth(q),
            w > 0 as real,
    ;
}

} // verus!
