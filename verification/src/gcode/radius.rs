//! Where the centre of an arc lies that is given by its radius.
use vstd::prelude::*;
use crate::arith::{minus, over, plus, single1, times, Arithmetic, Op, Scalar, HALF};
use crate::cutting::{lemma_bounded_product, lemma_root, sum_slack};
use crate::gcode::parser::{arc_center_from_radius, SHORT_CHORD};
use crate::geometry::{lemma_square, placed3, square_slack};
use crate::grbl::state::Vec3;
use crate::measure::{
    extent, gives, lemma_product, lemma_worth_absolute, lemma_worth_negated,
    lemma_worth_of_constants, lemma_worth_order, near, precise, worth,
};

verus! {

/// How far the square of a length may be off, on coordinates up to `m`.
pub open spec fn chord_slack(m: real, eps: real, coarse: real) -> real {
    sum_slack(m, eps, coarse) + coarse
}

/// How far the sides of the triangle of a centre, an end and the middle between the ends may be off.
pub open spec fn side_slack(m: real, eps: real, coarse: real) -> real {
    4 as real * coarse + eps * (3 as real * m + 2 as real)
}

/// Whether the ends of an arc are `len` apart, and a circle with the radius `r` can go through both,
/// even after rounding. Then the chord is off by no more than `eta`.
pub open spec fn spans<A: Arithmetic>(
    a: &A,
    start: Vec3,
    end: Vec3,
    r: real,
    len: real,
    eta: real,
    m: real,
    tiny: real,
    bound: real,
    eps: real,
    big: real,
    coarse: real,
) -> bool {
    let (fx, fy) = (worth(end.x) - worth(start.x), worth(end.y) - worth(start.y));
    &&& precise(a, 2 as real, tiny)
    &&& precise(a, bound, eps)
    &&& precise(a, big, coarse)
    &&& placed3(start, m) && placed3(end, m)
    &&& 0 as real <= tiny <= 1 as real
    &&& 0 as real <= eps <= 1 as real
    &&& coarse >= 0 as real
    &&& m >= 1 as real
    &&& 10 as real * m + 10 as real <= bound
    &&& 40 as real * (m * m) + 80 as real * m + 80 as real + 10 as real * coarse <= big
    &&& side_slack(m, eps, coarse) <= 2 as real * m + 1 as real
    &&& len * len == fx * fx + fy * fy
    &&& 0 as real <= eta <= 1 as real
    &&& chord_slack(m, eps, coarse) <= eta * len
    &&& len >= 2 as real * eta + 2 as real * eps
    &&& len >= eta + worth(Scalar { bits: SHORT_CHORD })
    &&& 0 as real <= r <= m
    &&& 2 as real * r >= len + eta + 2 as real * eps
    &&& 4 as real * (r * r) >= len * len + 4 as real * side_slack(m, eps, coarse) + chord_slack(
        m,
        eps,
        coarse,
    )
}

/// The chord between two points.
proof fn lemma_chord<A: Arithmetic>(
    a: &A,
    start: Vec3,
    end: Vec3,
    r: real,
    len: real,
    eta: real,
    m: real,
    tiny: real,
    bound: real,
    eps: real,
    big: real,
    coarse: real,
) -> (chord: Scalar)
    requires
        spans(a, start, end, r, len, eta, m, tiny, bound, eps, big, coarse),
    ensures
        ({
            let dx = minus(a, end.x, start.x);
            let dy = minus(a, end.y, start.y);
            let (fx, fy) = (worth(end.x) - worth(start.x), worth(end.y) - worth(start.y));
            &&& chord == single1(a, Op::Sqrt, plus(a, times(a, dx, dx), times(a, dy, dy)))
            &&& gives(dx, fx, eps)
            &&& gives(dy, fy, eps)
            &&& extent(fx) <= len
            &&& extent(fy) <= len
        }),
        gives(chord, len, eta),
        near(worth(chord) * worth(chord), len * len, chord_slack(m, eps, coarse)),
        len <= 3 as real * m,
        len >= 0 as real,
{
    let dx = minus(a, end.x, start.x);
    let dy = minus(a, end.y, start.y);
    let (fx, fy) = (worth(end.x) - worth(start.x), worth(end.y) - worth(start.y));
    assert(m * m >= 0 as real) by (nonlinear_arith);
    lemma_square(a, end.x, start.x, m, bound, eps, big, coarse);
    lemma_square(a, end.y, start.y, m, bound, eps, big, coarse);
    let (x2, y2) = (times(a, dx, dx), times(a, dy, dy));
    let e = square_slack(m, eps, coarse);
    assert(0 as real <= eps * (4 as real * m + 1 as real) <= 4 as real * m + 1 as real)
        by (nonlinear_arith)
        requires
            0 as real <= eps <= 1 as real,
            m >= 0 as real,
    ;
    let sum = plus(a, x2, y2);
    assert(gives(sum, worth(x2) + worth(y2), coarse));
    assert(worth(sum) >= 0 as real);
    let chord = single1(a, Op::Sqrt, sum);
    let c = worth(chord);
    let d = chord_slack(m, eps, coarse);
    assert(near(c * c, len * len, d));
    lemma_root(fx, len);
    lemma_root(fy, len);
    let k = 3 as real * m;
    assert(k * k == 9 as real * (m * m)) by (nonlinear_arith)
        requires
            k == 3 as real * m,
    ;
    lemma_root(len, k);
    if c > len + eta {
        assert(c * c > len * len + eta * len) by (nonlinear_arith)
            requires
                c > len + eta,
                len >= 0 as real,
                eta >= 0 as real,
                len > 0 as real || eta > 0 as real || c > 0 as real,
        ;
    } else if c < len - eta {
        assert(len * len > c * c + eta * len) by (nonlinear_arith)
            requires
                c < len - eta,
                c >= 0 as real,
                eta >= 0 as real,
        ;
    }
    chord
}

/// How far a centre may be off at right angles to the chord, times the chord.
pub open spec fn arm_slack(c: real, h: real, tiny: real, eps: real) -> real {
    (tiny * c + eps) * h + 4 as real * (eps * c)
}

/// The part of the chord's direction along one axis.
proof fn lemma_direction<A: Arithmetic>(
    a: &A,
    num: Scalar,
    chord: Scalar,
    n: real,
    len: real,
    eta: real,
    tiny: real,
    eps: real,
)
    requires
        precise(a, 2 as real, tiny),
        gives(num, n, eps),
        gives(chord, len, eta),
        extent(n) <= len,
        len >= 2 as real * eta + 2 as real * eps,
        worth(chord) > 0 as real,
        0 as real <= tiny <= 1 as real,
    ensures
        ({
            let p = over(a, num, chord);
            &&& p.finite()
            &&& extent(worth(p)) <= 3 as real
            &&& near(worth(p) * worth(chord), n, tiny * worth(chord) + eps)
        }),
{
    let (u, c) = (worth(num), worth(chord));
    let q = u / c;
    assert(q * c == u) by (nonlinear_arith)
        requires
            q == u / c,
            c > 0 as real,
    ;
    assert(extent(u) <= 2 as real * c);
    assert(extent(q) <= 2 as real) by {
        if q > 2 as real {
            assert(q * c > 2 as real * c) by (nonlinear_arith)
                requires
                    q > 2 as real,
                    c > 0 as real,
            ;
        } else if q < -2 as real {
            let r = -q;
            assert(r * c > 2 as real * c) by (nonlinear_arith)
                requires
                    r > 2 as real,
                    c > 0 as real,
            ;
            assert(r * c == -(q * c)) by (nonlinear_arith)
                requires
                    r == -q,
            ;
        }
    }
    let p = over(a, num, chord);
    assert(gives(p, q, tiny));
    let e = worth(p) - q;
    assert(-(tiny * c) <= e * c <= tiny * c) by (nonlinear_arith)
        requires
            -tiny <= e <= tiny,
            c > 0 as real,
    ;
    assert(e * c == worth(p) * c - q * c) by (nonlinear_arith)
        requires
            e == worth(p) - q,
    ;
}

/// One coordinate of a centre: `h` away from the middle between the ends, in a direction.
proof fn lemma_arm<A: Arithmetic>(
    a: &A,
    s: Scalar,
    e: Scalar,
    p: Scalar,
    h: Scalar,
    c: real,
    n: real,
    m: real,
    tiny: real,
    bound: real,
    eps: real,
)
    requires
        precise(a, bound, eps),
        s.finite() && e.finite() && p.finite() && h.finite(),
        extent(worth(s)) <= m && extent(worth(e)) <= m,
        extent(worth(p)) <= 3 as real,
        0 as real <= worth(h) <= m + 1 as real,
        near(worth(p) * c, n, tiny * c + eps),
        0 as real <= eps <= 1 as real,
        m >= 1 as real,
        c > 0 as real,
        10 as real * m + 10 as real <= bound,
    ensures
        ({
            let half = Scalar { bits: HALF };
            let mid = times(a, plus(a, s, e), half);
            let w = (worth(s) + worth(e)) * worth(half);
            let one = plus(a, mid, times(a, p, h));
            let other = minus(a, mid, times(a, p, h));
            let d = arm_slack(c, worth(h), tiny, eps);
            &&& one.finite() && other.finite()
            &&& near((worth(one) - w) * c, n * worth(h), d)
            &&& near((worth(other) - w) * c, -(n * worth(h)), d)
        }),
{
    lemma_worth_of_constants();
    let half = Scalar { bits: HALF };
    let b = worth(half);
    let sum = plus(a, s, e);
    let full = worth(s) + worth(e);
    assert(gives(sum, full, eps));
    assert(near(worth(sum) * b, full * b, eps) && extent(full * b) <= m && extent(worth(sum) * b)
        <= m + 1 as real) by {
        let x = worth(sum);
        assert(2 as real * (x * b) == x) by (nonlinear_arith)
            requires
                2 as real * b == 1 as real,
        ;
        assert(2 as real * (full * b) == full) by (nonlinear_arith)
            requires
                2 as real * b == 1 as real,
        ;
    }
    let mid = times(a, sum, half);
    assert(gives(mid, worth(sum) * b, eps));
    let w = full * b;
    let (pw, hw) = (worth(p), worth(h));
    assert(extent(pw * hw) <= 3 as real * (m + 1 as real)) by {
        assert((3 as real - pw) * hw >= 0 as real) by (nonlinear_arith)
            requires
                3 as real - pw >= 0 as real,
                hw >= 0 as real,
        ;
        assert((3 as real + pw) * hw >= 0 as real) by (nonlinear_arith)
            requires
                3 as real + pw >= 0 as real,
                hw >= 0 as real,
        ;
        assert((3 as real - pw) * hw == 3 as real * hw - pw * hw) by (nonlinear_arith);
        assert((3 as real + pw) * hw == 3 as real * hw + pw * hw) by (nonlinear_arith);
    }
    let arm = times(a, p, h);
    assert(gives(arm, pw * hw, eps));
    let one = plus(a, mid, arm);
    let other = minus(a, mid, arm);
    assert(gives(one, worth(mid) + worth(arm), eps));
    assert(gives(other, worth(mid) - worth(arm), eps));
    let f = 4 as real * eps;
    let x = worth(one) - w;
    let y = worth(other) - w;
    assert(near(x, pw * hw, f) && near(y, -(pw * hw), f));
    lemma_spread(x, pw * hw, f, c);
    lemma_spread(y, -(pw * hw), f, c);
    lemma_spread(pw * c, n, tiny * c + eps, hw);
    assert((pw * hw) * c == (pw * c) * hw) by (nonlinear_arith);
    assert((-(pw * hw)) * c == -((pw * hw) * c)) by (nonlinear_arith);
    assert(f * c == 4 as real * (eps * c)) by (nonlinear_arith)
        requires
            f == 4 as real * eps,
    ;
}

proof fn lemma_spread(x: real, y: real, d: real, c: real)
    requires
        near(x, y, d),
        c >= 0 as real,
    ensures
        near(x * c, y * c, d * c),
{
    let e = x - y;
    assert(-(d * c) <= e * c <= d * c) by (nonlinear_arith)
        requires
            -d <= e <= d,
            c >= 0 as real,
    ;
    assert(e * c == x * c - y * c) by (nonlinear_arith)
        requires
            e == x - y,
    ;
}

/// A centre stands on the middle between the two ends, at right angles to the chord `c`, at a
/// distance `h` that makes the radius the long side of a right triangle with half the chord. So it is
/// a radius away from both ends, all up to rounding. It is on the height of the start.
pub proof fn lemma_radius_center<A: Arithmetic>(
    a: &A,
    start: Vec3,
    end: Vec3,
    radius: Scalar,
    clockwise: bool,
    len: real,
    eta: real,
    m: real,
    tiny: real,
    bound: real,
    eps: real,
    big: real,
    coarse: real,
) -> (r: (real, real, bool))
    requires
        radius.finite(),
        spans(
            a,
            start,
            end,
            extent(worth(radius)),
            len,
            eta,
            m,
            tiny,
            bound,
            eps,
            big,
            coarse,
        ),
    ensures
        ({
            let (c, h, left) = r;
            let center = arc_center_from_radius(a, start, end, radius, clockwise);
            let half = worth(Scalar { bits: HALF });
            let (fx, fy) = (worth(end.x) - worth(start.x), worth(end.y) - worth(start.y));
            let (mx, my) = (
                (worth(start.x) + worth(end.x)) * half,
                (worth(start.y) + worth(end.y)) * half,
            );
            let (ux, uy) = (worth(center.x) - mx, worth(center.y) - my);
            let d = arm_slack(c, h, tiny, eps);
            &&& near(c, len, eta)
            &&& h >= 0 as real
            &&& near(
                h * h + (c * half) * (c * half),
                worth(radius) * worth(radius),
                side_slack(m, eps, coarse),
            )
            &&& left ==> near(ux * c, -(fy * h), d) && near(uy * c, fx * h, d)
            &&& !left ==> near(ux * c, fy * h, d) && near(uy * c, -(fx * h), d)
            &&& center.z == start.z
        }),
{
    lemma_worth_of_constants();
    let half = Scalar { bits: HALF };
    let b = worth(half);
    let short = Scalar { bits: SHORT_CHORD };
    let dx = minus(a, end.x, start.x);
    let dy = minus(a, end.y, start.y);
    let (fx, fy) = (worth(end.x) - worth(start.x), worth(end.y) - worth(start.y));
    let rad = radius.absolute();
    let r = extent(worth(radius));
    lemma_worth_absolute(radius);
    let chord = lemma_chord(a, start, end, r, len, eta, m, tiny, bound, eps, big, coarse);
    let c = worth(chord);
    assert(short.finite());
    lemma_worth_order(Scalar { bits: 0 }, short);
    lemma_worth_order(chord, short);
    let hc = times(a, chord, half);
    assert(2 as real * (c * b) == c) by (nonlinear_arith)
        requires
            2 as real * b == 1 as real,
    ;
    assert(gives(hc, c * b, eps));
    lemma_worth_order(rad, hc);
    assert(!chord.below(short) && !rad.below(hc));
    // The square of the half chord.
    let hw = worth(hc);
    lemma_product(hw, hw, c * b, c * b, eps, eps);
    assert(eps * extent(c * b) <= eps * ((3 as real * m + 1 as real) * b)) by {
        let k = c * b;
        let l = (3 as real * m + 1 as real) * b;
        assert(2 as real * l == 3 as real * m + 1 as real) by (nonlinear_arith)
            requires
                l == (3 as real * m + 1 as real) * b,
                2 as real * b == 1 as real,
        ;
        assert(eps * k <= eps * l) by (nonlinear_arith)
            requires
                k <= l,
                eps >= 0 as real,
        ;
    }
    assert(2 as real * (eps * ((3 as real * m + 1 as real) * b)) == eps * (3 as real * m
        + 1 as real)) by (nonlinear_arith)
        requires
            2 as real * b == 1 as real,
    ;
    assert(eps * eps <= eps) by (nonlinear_arith)
        requires
            0 as real <= eps <= 1 as real,
    ;
    assert(eps * (3 as real * m + 2 as real) == eps * (3 as real * m + 1 as real) + eps)
        by (nonlinear_arith);
    assert(near(hw * hw, (c * b) * (c * b), eps * (3 as real * m + 2 as real)));
    assert(4 as real * ((c * b) * (c * b)) == c * c) by (nonlinear_arith)
        requires
            2 as real * b == 1 as real,
    ;
    assert(m * m >= 0 as real) by (nonlinear_arith);
    lemma_bounded_product(len, len, 3 as real * m);
    assert((3 as real * m) * (3 as real * m) == 9 as real * (m * m)) by (nonlinear_arith);
    lemma_chord_small(m, eps, coarse);
    let sq = single1(a, Op::Square, hc);
    assert(gives(sq, hw * hw, coarse));
    lemma_bounded_product(r, r, m);
    assert(r * r >= 0 as real) by (nonlinear_arith);
    assert(worth(rad) == r);
    let rr = times(a, rad, rad);
    assert(gives(rr, r * r, coarse));
    let arg = minus(a, rr, sq);
    assert(gives(arg, worth(rr) - worth(sq), coarse));
    assert(worth(arg) >= 0 as real);
    let h = single1(a, Op::Sqrt, arg);
    let hh = worth(h);
    assert(near(hh * hh, worth(arg), coarse));
    assert(near(hh * hh + (c * b) * (c * b), r * r, side_slack(m, eps, coarse)));
    assert(r * r == worth(radius) * worth(radius)) by (nonlinear_arith)
        requires
            r == worth(radius) || r == -worth(radius),
    ;
    let top = m + 1 as real;
    assert(top * top == m * m + 2 as real * m + 1 as real) by (nonlinear_arith)
        requires
            top == m + 1 as real,
    ;
    assert((c * b) * (c * b) >= 0 as real) by (nonlinear_arith);
    lemma_root(hh, top);
    lemma_worth_negated(dy);
    lemma_direction(a, dy.negated(), chord, -fy, len, eta, tiny, eps);
    lemma_direction(a, dx, chord, fx, len, eta, tiny, eps);
    let px = over(a, dy.negated(), chord);
    let py = over(a, dx, chord);
    lemma_arm(a, start.x, end.x, px, h, c, -fy, m, tiny, bound, eps);
    lemma_arm(a, start.y, end.y, py, h, c, fx, m, tiny, bound, eps);
    assert((-fy) * hh == -(fy * hh)) by (nonlinear_arith);
    let center = arc_center_from_radius(a, start, end, radius, clockwise);
    let mx = times(a, plus(a, start.x, end.x), half);
    let my = times(a, plus(a, start.y, end.y), half);
    let left = Vec3 {
        x: plus(a, mx, times(a, px, h)),
        y: plus(a, my, times(a, py, h)),
        z: start.z,
    };
    (c, hh, center == left)
}

proof fn lemma_chord_small(m: real, eps: real, coarse: real)
    requires
        0 as real <= eps <= 1 as real,
        coarse >= 0 as real,
        m >= 1 as real,
    ensures
        0 as real <= chord_slack(m, eps, coarse) <= 8 as real * m + 2 as real + 4 as real * coarse,
        0 as real <= eps * (3 as real * m + 2 as real) <= 3 as real * m + 2 as real,
{
    assert(0 as real <= eps * (4 as real * m + 1 as real) <= 4 as real * m + 1 as real)
        by (nonlinear_arith)
        requires
            0 as real <= eps <= 1 as real,
            m >= 0 as real,
    ;
    assert(0 as real <= eps * (3 as real * m + 2 as real) <= 3 as real * m + 2 as real)
        by (nonlinear_arith)
        requires
            0 as real <= eps <= 1 as real,
            m >= 0 as real,
    ;
}

} // verus!
