//! Points, and what holds of the ways between them up to rounding.
use vstd::prelude::*;
use crate::arith::{minus, over, plus, single1, single_of, times, Arithmetic, Op, Scalar};
use crate::grbl::state::{spec_dist, spec_lerp, Orientation, Vec3};
use crate::measure::{
    extent, gives, lemma_product, lemma_worth_negated, near, precise, worth,
};

verus! {

pub open spec fn finite3(v: Vec3) -> bool {
    v.x.finite() && v.y.finite() && v.z.finite()
}

/// Whether no coordinate is larger than `m`.
pub open spec fn bounded3(v: Vec3, m: real) -> bool {
    extent(worth(v.x)) <= m && extent(worth(v.y)) <= m && extent(worth(v.z)) <= m
}

/// Whether the numbers are finite and no larger than `m`.
pub open spec fn placed3(v: Vec3, m: real) -> bool {
    finite3(v) && bounded3(v, m)
}

/// The point at the part `t` of the way from `p` to `q`, along one axis.
pub open spec fn between(p: real, q: real, t: real) -> real {
    p + (q - p) * t
}

/// How far a point between two points may be off, on coordinates up to `m`: the part of the way is
/// off by `tiny`, and each of four lengths by `eps`.
pub open spec fn way_slack(m: real, tiny: real, eps: real) -> real {
    2 as real * (tiny * m) + 4 as real * eps
}

/// One coordinate of a point between two points.
pub proof fn lemma_between<A: Arithmetic>(
    a: &A,
    p: Scalar,
    q: Scalar,
    t: Scalar,
    part: real,
    m: real,
    tiny: real,
    bound: real,
    eps: real,
)
    requires
        precise(a, bound, eps),
        p.finite() && q.finite(),
        gives(t, part, tiny),
        0 as real <= part <= 1 as real,
        extent(worth(p)) <= m && extent(worth(q)) <= m,
        0 as real <= eps <= 1 as real,
        0 as real <= tiny <= 1 as real,
        m >= 0 as real,
        6 as real * m + 6 as real <= bound,
    ensures
        gives(
            plus(a, p, times(a, minus(a, q, p), t)),
            between(worth(p), worth(q), part),
            way_slack(m, tiny, eps),
        ),
{
    let d = minus(a, q, p);
    let full = worth(q) - worth(p);
    assert(gives(d, full, eps));
    lemma_product(worth(d), worth(t), full, part, eps, tiny);
    assert(eps * extent(part) <= eps) by (nonlinear_arith)
        requires
            0 as real <= extent(part) <= 1 as real,
            eps >= 0 as real,
    ;
    assert(tiny * extent(full) <= 2 as real * (tiny * m)) by (nonlinear_arith)
        requires
            extent(full) <= 2 as real * m,
            tiny >= 0 as real,
    ;
    assert(eps * tiny <= eps) by (nonlinear_arith)
        requires
            0 as real <= tiny <= 1 as real,
            eps >= 0 as real,
    ;
    let step = worth(d) * worth(t);
    assert(near(step, full * part, 2 as real * (tiny * m) + 2 as real * eps));
    assert(extent(full * part) <= 2 as real * m) by (nonlinear_arith)
        requires
            extent(full) <= 2 as real * m,
            0 as real <= part <= 1 as real,
    ;
    assert(tiny * m <= m) by (nonlinear_arith)
        requires
            0 as real <= tiny <= 1 as real,
            m >= 0 as real,
    ;
    let w = times(a, d, t);
    assert(gives(w, step, eps));
    assert(gives(plus(a, p, w), worth(p) + worth(w), eps));
}

/// A point between two points lies on the straight way between them, at its part of the way.
pub proof fn lemma_lerp<A: Arithmetic>(
    a: &A,
    p: Vec3,
    q: Vec3,
    t: Scalar,
    part: real,
    m: real,
    tiny: real,
    bound: real,
    eps: real,
)
    requires
        precise(a, bound, eps),
        placed3(p, m) && placed3(q, m),
        gives(t, part, tiny),
        0 as real <= part <= 1 as real,
        0 as real <= eps <= 1 as real,
        0 as real <= tiny <= 1 as real,
        m >= 0 as real,
        6 as real * m + 6 as real <= bound,
    ensures
        ({
            let v = spec_lerp(a, p, q, t);
            let d = way_slack(m, tiny, eps);
            &&& gives(v.x, between(worth(p.x), worth(q.x), part), d)
            &&& gives(v.y, between(worth(p.y), worth(q.y), part), d)
            &&& gives(v.z, between(worth(p.z), worth(q.z), part), d)
        }),
{
    lemma_between(a, p.x, q.x, t, part, m, tiny, bound, eps);
    lemma_between(a, p.y, q.y, t, part, m, tiny, bound, eps);
    lemma_between(a, p.z, q.z, t, part, m, tiny, bound, eps);
}

/// A point of a job where it comes to lie on the table: turned counterclockwise by a quarter or a
/// half, with the axes exchanged, or with the first axis reversed.
pub open spec fn turned(o: Orientation, x: real, y: real) -> (real, real) {
    match o {
        Orientation::R0 => (x, y),
        Orientation::R90 => (-y, x),
        Orientation::R180 => (-x, -y),
        Orientation::Transpose => (y, x),
        Orientation::MirrorX => (-x, y),
    }
}

/// An orientation turns what the coordinates are worth.
pub proof fn lemma_turned(o: Orientation, x: Scalar, y: Scalar)
    ensures
        ({
            let (u, v) = o.placed(x, y);
            &&& (worth(u), worth(v)) == turned(o, worth(x), worth(y))
            &&& x.finite() && y.finite() ==> u.finite() && v.finite()
        }),
{
    lemma_worth_negated(x);
    lemma_worth_negated(y);
}

/// An orientation keeps every distance from the origin. A quarter turn goes counterclockwise and
/// leads at right angles to where the point was; two of them make a half turn, and a half turn leads
/// to the opposite point. The other two are reflections: done twice they change nothing, and they
/// reverse the sense of rotation.
pub proof fn lemma_orientations(o: Orientation, x: Scalar, y: Scalar)
    ensures
        ({
            let (u, v) = o.placed(x, y);
            let (p, q, r, s) = (worth(x), worth(y), worth(u), worth(v));
            &&& r * r + s * s == p * p + q * q
            &&& o == Orientation::R0 ==> (u, v) == (x, y)
            &&& o == Orientation::R90 ==> p * r + q * s == 0 as real && p * s - q * r == p * p + q
                * q
            &&& o == Orientation::R180 ==> r == -p && s == -q
            &&& o == Orientation::R90 ==> ({
                let (b, c) = o.placed(u, v);
                worth(b) == -p && worth(c) == -q
            })
            &&& o == Orientation::Transpose ==> (u, v) == (y, x)
            &&& o == Orientation::MirrorX ==> r == -p && v == y
            &&& o == Orientation::R180 || o == Orientation::Transpose || o == Orientation::MirrorX
                ==> ({
                let (b, c) = o.placed(u, v);
                b == x && c == y
            })
        }),
{
    lemma_worth_negated(x);
    lemma_worth_negated(y);
    let (u, v) = o.placed(x, y);
    lemma_worth_negated(u);
    lemma_worth_negated(v);
    lemma_negated_twice(x);
    lemma_negated_twice(y);
    let (p, q, r, s) = (worth(x), worth(y), worth(u), worth(v));
    assert((-p) * (-p) == p * p && (-q) * (-q) == q * q) by (nonlinear_arith);
    assert(p * (-q) + q * p == 0 as real && p * p - q * (-q) == p * p + q * q) by (nonlinear_arith);
}

proof fn lemma_negated_twice(x: Scalar)
    ensures
        x.negated().negated() == x,
{
}

/// How far the square of a difference may be off, on coordinates up to `m`: the difference is off by
/// `eps`, and its square by `coarse`.
pub open spec fn square_slack(m: real, eps: real, coarse: real) -> real {
    eps * (4 as real * m + 1 as real) + coarse
}

/// The square of a difference.
pub proof fn lemma_square<A: Arithmetic>(
    a: &A,
    x: Scalar,
    y: Scalar,
    m: real,
    bound: real,
    eps: real,
    big: real,
    coarse: real,
)
    requires
        precise(a, bound, eps),
        precise(a, big, coarse),
        x.finite() && y.finite(),
        extent(worth(x)) <= m && extent(worth(y)) <= m,
        0 as real <= eps <= 1 as real,
        m >= 0 as real,
        2 as real * m <= bound,
        4 as real * (m * m) + 4 as real * m + 1 as real <= big,
    ensures
        ({
            let d = minus(a, x, y);
            let full = worth(x) - worth(y);
            &&& gives(times(a, d, d), full * full, square_slack(m, eps, coarse))
            &&& 0 as real <= full * full <= 4 as real * (m * m)
            &&& worth(times(a, d, d)) >= 0 as real
        }),
{
    let d = minus(a, x, y);
    let full = worth(x) - worth(y);
    assert(gives(d, full, eps));
    lemma_product(worth(d), worth(d), full, full, eps, eps);
    assert(eps * extent(full) <= eps * (2 as real * m)) by (nonlinear_arith)
        requires
            extent(full) <= 2 as real * m,
            eps >= 0 as real,
    ;
    assert(eps * eps <= eps && eps <= 1 as real) by (nonlinear_arith)
        requires
            0 as real <= eps <= 1 as real,
    ;
    assert(eps * (2 as real * m) <= 2 as real * m) by (nonlinear_arith)
        requires
            0 as real <= eps <= 1 as real,
            m >= 0 as real,
    ;
    assert(0 as real <= full * full <= 4 as real * (m * m)) by (nonlinear_arith)
        requires
            extent(full) <= 2 as real * m,
    ;
    assert(eps * (4 as real * m + 1 as real) == 2 as real * (eps * (2 as real * m)) + eps)
        by (nonlinear_arith);
}

/// The distance of two points is a number whose square is the sum of the squares of the differences.
pub proof fn lemma_dist<A: Arithmetic>(
    a: &A,
    p: Vec3,
    q: Vec3,
    m: real,
    bound: real,
    eps: real,
    big: real,
    coarse: real,
)
    requires
        precise(a, bound, eps),
        precise(a, big, coarse),
        placed3(p, m) && placed3(q, m),
        0 as real <= eps <= 1 as real,
        coarse >= 0 as real,
        m >= 0 as real,
        2 as real * m <= bound,
        20 as real * (m * m) + 40 as real * m + 20 as real + 10 as real * coarse <= big,
    ensures
        ({
            let l = spec_dist(a, p, q);
            let (dx, dy, dz) = (
                worth(p.x) - worth(q.x),
                worth(p.y) - worth(q.y),
                worth(p.z) - worth(q.z),
            );
            &&& l.finite()
            &&& worth(l) >= 0 as real
            &&& near(
                worth(l) * worth(l),
                dx * dx + dy * dy + dz * dz,
                3 as real * square_slack(m, eps, coarse) + 3 as real * coarse,
            )
        }),
{
    assert(m * m >= 0 as real) by (nonlinear_arith);
    let dx = minus(a, p.x, q.x);
    let dy = minus(a, p.y, q.y);
    let dz = minus(a, p.z, q.z);
    lemma_square(a, p.x, q.x, m, bound, eps, big, coarse);
    lemma_square(a, p.y, q.y, m, bound, eps, big, coarse);
    lemma_square(a, p.z, q.z, m, bound, eps, big, coarse);
    let (x2, y2, z2) = (times(a, dx, dx), times(a, dy, dy), times(a, dz, dz));
    let e = square_slack(m, eps, coarse);
    assert(0 as real <= e <= 4 as real * m + 1 as real + coarse) by (nonlinear_arith)
        requires
            e == eps * (4 as real * m + 1 as real) + coarse,
            0 as real <= eps <= 1 as real,
            coarse >= 0 as real,
            m >= 0 as real,
    ;
    let xy = plus(a, x2, y2);
    assert(gives(xy, worth(x2) + worth(y2), coarse));
    let all = plus(a, xy, z2);
    assert(gives(all, worth(xy) + worth(z2), coarse));
    let s = single1(a, Op::Sqrt, all);
}

/// `k` of `n`.
pub open spec fn share(k: int, n: int) -> real {
    k as real / n as real
}

/// The part `k` of `n`, as a number.
pub proof fn lemma_part<A: Arithmetic>(a: &A, k: u64, n: u64, tiny: real)
    requires
        precise(a, 2 as real, tiny),
        0 <= k <= n <= 0x100_0000,
        n >= 1,
    ensures
        gives(over(a, single_of(a, k), single_of(a, n)), share(k as int, n as int), tiny),
        0 as real <= share(k as int, n as int) <= 1 as real,
{
    let (x, y) = (k as real, n as real);
    assert(0 as real <= x / y <= 1 as real) by (nonlinear_arith)
        requires
            0 as real <= x <= y,
            y >= 1 as real,
    ;
}

} // verus!
