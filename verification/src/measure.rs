//! What numbers are worth, and how far an arithmetic may be off.
//!
//! The laws that speak of lengths and angles are stated over real numbers. They hold of every
//! arithmetic whose results are off by no more than it is said here, and so of the machine's own.
use vstd::prelude::*;
use vstd::arithmetic::power2::{
    lemma2_to64, lemma_pow2_adds, lemma_pow2_pos, lemma_pow2_unfold, pow2,
};
use crate::arith::{
    double1, double2, double_of, lemma_units_of_one, lemma_units_order, minus, narrow, over, plus,
    single1, single_of, times, unit_count, wide_minus, wide_over, wide_plus, wide_times, widen,
    Arithmetic, Double, Op, Scalar,
};

verus! {

/// What a finite single is worth.
pub open spec fn worth(x: Scalar) -> real {
    x.units() as real / unit_count() as real
}

/// The value of a finite double without its sign, counted in units of the least positive double.
pub open spec fn wide_magnitude_units(m: int) -> int {
    let e = m / 0x10_0000_0000_0000;
    let f = m % 0x10_0000_0000_0000;
    if e == 0 {
        f
    } else {
        (0x10_0000_0000_0000 + f) * pow2((e - 1) as nat)
    }
}

/// How many of these units make one.
pub open spec fn wide_unit_count() -> int {
    wide_magnitude_units(0x3ff0_0000_0000_0000)
}

/// What a finite double is worth.
pub open spec fn wide_worth(x: Double) -> real {
    let m = wide_magnitude_units(x.magnitude()) as real / wide_unit_count() as real;
    if x.negative() {
        -m
    } else {
        m
    }
}

pub open spec fn wide_finite(x: Double) -> bool {
    x.magnitude() < 0x7ff0_0000_0000_0000
}

/// Whether `x` and `y` are no more than `d` apart.
pub open spec fn near(x: real, y: real, d: real) -> bool {
    -d <= x - y <= d
}

/// The size of `x`.
pub open spec fn extent(x: real) -> real {
    if x < 0 as real {
        -x
    } else {
        x
    }
}

/// Whether a single is finite and worth `v`, up to `d`.
pub open spec fn gives(x: Scalar, v: real, d: real) -> bool {
    x.finite() && near(worth(x), v, d)
}

/// Whether a double is finite and worth `v`, up to `d`.
pub open spec fn wide_gives(x: Double, v: real, d: real) -> bool {
    wide_finite(x) && near(wide_worth(x), v, d)
}

/// Whether the results on finite singles are off by no more than `eps`, where they come to no more
/// than `bound`, and squares and sums of what is not negative are not negative.
pub open spec fn precise<A: Arithmetic>(a: &A, bound: real, eps: real) -> bool {
    &&& forall|x: Scalar, y: Scalar|
        #![trigger plus(a, x, y)]
        x.finite() && y.finite() && extent(worth(x) + worth(y)) <= bound ==> gives(
            plus(a, x, y),
            worth(x) + worth(y),
            eps,
        ) && (worth(x) >= 0 as real && worth(y) >= 0 as real ==> worth(plus(a, x, y))
            >= 0 as real)
    &&& forall|x: Scalar, y: Scalar|
        #![trigger minus(a, x, y)]
        x.finite() && y.finite() && extent(worth(x) - worth(y)) <= bound ==> gives(
            minus(a, x, y),
            worth(x) - worth(y),
            eps,
        )
    &&& forall|x: Scalar, y: Scalar|
        #![trigger times(a, x, y)]
        x.finite() && y.finite() && extent(worth(x) * worth(y)) <= bound ==> gives(
            times(a, x, y),
            worth(x) * worth(y),
            eps,
        ) && (x == y ==> worth(times(a, x, y)) >= 0 as real)
    &&& forall|x: Scalar, y: Scalar|
        #![trigger over(a, x, y)]
        x.finite() && y.finite() && worth(y) != 0 as real && extent(worth(x) / worth(y)) <= bound
            ==> gives(over(a, x, y), worth(x) / worth(y), eps)
    &&& forall|x: Scalar|
        #![trigger single1(a, Op::Square, x)]
        x.finite() && worth(x) * worth(x) <= bound ==> gives(
            single1(a, Op::Square, x),
            worth(x) * worth(x),
            eps,
        ) && worth(single1(a, Op::Square, x)) >= 0 as real
    &&& forall|x: Scalar|
        #![trigger single1(a, Op::Sqrt, x)]
        x.finite() && 0 as real <= worth(x) <= bound ==> {
            let s = single1(a, Op::Sqrt, x);
            &&& s.finite()
            &&& worth(s) >= 0 as real
            &&& near(worth(s) * worth(s), worth(x), eps)
        }
    &&& forall|n: u64|
        n <= 0x100_0000 ==> (#[trigger] single_of(a, n)).finite() && worth(single_of(a, n))
            == n as real
}

/// Whether the results on finite doubles are off by no more than `fine`, where they come to no more
/// than `wide`, and a double up to `bound` that becomes a single is off by no more than `eps`.
pub open spec fn wide_precise<A: Arithmetic>(
    a: &A,
    bound: real,
    eps: real,
    wide: real,
    fine: real,
) -> bool {
    &&& forall|x: Double, y: Double|
        #![trigger wide_plus(a, x, y)]
        wide_finite(x) && wide_finite(y) && extent(wide_worth(x) + wide_worth(y)) <= wide
            ==> wide_gives(wide_plus(a, x, y), wide_worth(x) + wide_worth(y), fine) && (
        wide_worth(x) >= 0 as real && wide_worth(y) >= 0 as real ==> wide_worth(wide_plus(a, x, y))
            >= 0 as real)
    &&& forall|x: Double, y: Double|
        #![trigger wide_minus(a, x, y)]
        wide_finite(x) && wide_finite(y) && extent(wide_worth(x) - wide_worth(y)) <= wide
            ==> wide_gives(wide_minus(a, x, y), wide_worth(x) - wide_worth(y), fine)
    &&& forall|x: Double, y: Double|
        #![trigger wide_times(a, x, y)]
        wide_finite(x) && wide_finite(y) && extent(wide_worth(x) * wide_worth(y)) <= wide
            ==> wide_gives(wide_times(a, x, y), wide_worth(x) * wide_worth(y), fine)
    &&& forall|x: Double, y: Double|
        #![trigger wide_over(a, x, y)]
        wide_finite(x) && wide_finite(y) && wide_worth(y) != 0 as real && extent(
            wide_worth(x) / wide_worth(y),
        ) <= wide ==> wide_gives(wide_over(a, x, y), wide_worth(x) / wide_worth(y), fine)
    &&& forall|x: Double|
        #![trigger double1(a, Op::Square, x)]
        wide_finite(x) && wide_worth(x) * wide_worth(x) <= wide ==> wide_gives(
            double1(a, Op::Square, x),
            wide_worth(x) * wide_worth(x),
            fine,
        ) && wide_worth(double1(a, Op::Square, x)) >= 0 as real
    &&& forall|x: Double|
        #![trigger double1(a, Op::Sqrt, x)]
        wide_finite(x) && 0 as real <= wide_worth(x) <= wide ==> {
            let s = double1(a, Op::Sqrt, x);
            &&& wide_finite(s)
            &&& wide_worth(s) >= 0 as real
            &&& near(wide_worth(s) * wide_worth(s), wide_worth(x), fine)
        }
    &&& forall|x: Scalar|
        #![trigger widen(a, x)]
        x.finite() ==> wide_gives(widen(a, x), worth(x), 0 as real)
    &&& forall|x: Double|
        #![trigger narrow(a, x)]
        wide_finite(x) && extent(wide_worth(x)) <= bound ==> gives(
            narrow(a, x),
            wide_worth(x),
            eps,
        )
    &&& forall|n: u64|
        n <= 0x100_0000 ==> wide_gives(#[trigger] double_of(a, n), n as real, 0 as real)
}

/// Whether angles are measured so that a full turn is `turn`, with sines and cosines that are off by
/// no more than `fine`: a point at the distance `r` in the direction of `(x, y)` is that point where
/// it is as far away.
pub open spec fn circular<A: Arithmetic>(a: &A, turn: real, bound: real, fine: real) -> bool {
    &&& turn > 0 as real
    &&& forall|u: Double|
        #![trigger double1(a, Op::Cos, u)]
        #![trigger double1(a, Op::Sin, u)]
        wide_finite(u) && extent(wide_worth(u)) <= bound ==> {
            let c = double1(a, Op::Cos, u);
            let s = double1(a, Op::Sin, u);
            &&& wide_gives(c, 0 as real, 1 as real)
            &&& wide_gives(s, 0 as real, 1 as real)
            &&& near(
                wide_worth(c) * wide_worth(c) + wide_worth(s) * wide_worth(s),
                1 as real,
                fine,
            )
        }
    &&& forall|u: Double, v: Double, k: int, d: real|
        #![trigger on_same_ray(u, v, turn, k, d), double1(a, Op::Cos, u), double1(a, Op::Cos, v)]
        wide_finite(u) && wide_finite(v) && extent(wide_worth(u)) <= bound && extent(wide_worth(v))
            <= bound && on_same_ray(u, v, turn, k, d) ==> {
            &&& near(
                wide_worth(double1(a, Op::Cos, u)),
                wide_worth(double1(a, Op::Cos, v)),
                d + fine,
            )
            &&& near(
                wide_worth(double1(a, Op::Sin, u)),
                wide_worth(double1(a, Op::Sin, v)),
                d + fine,
            )
        }
    &&& forall|y: Double, x: Double|
        #![trigger double2(a, Op::Atan2, y, x)]
        wide_finite(y) && wide_finite(x) ==> {
            let t = double2(a, Op::Atan2, y, x);
            &&& wide_finite(t)
            &&& 2 as real * extent(wide_worth(t)) <= turn + fine
        }
    &&& forall|y: Double, x: Double, r: real, d: real|
        #![trigger as_far(r, wide_worth(x), wide_worth(y), d), double2(a, Op::Atan2, y, x)]
        wide_finite(y) && wide_finite(x) && as_far(r, wide_worth(x), wide_worth(y), d) && r
            <= bound ==> {
            let t = double2(a, Op::Atan2, y, x);
            &&& near(
                r * wide_worth(double1(a, Op::Cos, t)),
                wide_worth(x),
                d + fine * (1 as real + r + d),
            )
            &&& near(
                r * wide_worth(double1(a, Op::Sin, t)),
                wide_worth(y),
                d + fine * (1 as real + r + d),
            )
        }
}

/// Whether the angle `u` is `k` turns on from `v`, up to `d`.
pub open spec fn on_same_ray(u: Double, v: Double, turn: real, k: int, d: real) -> bool {
    -1 <= k <= 1 && d >= 0 as real && near(wide_worth(u), wide_worth(v) + k as real * turn, d)
}

/// Whether `(x, y)` is `r` away from the origin, up to `d`.
pub open spec fn as_far(r: real, x: real, y: real, d: real) -> bool {
    r >= 0 as real && d >= 0 as real && near(r * r, x * x + y * y, d * r)
}

/// A sign change changes the sign of what a number is worth.
pub proof fn lemma_worth_negated(x: Scalar)
    ensures
        worth(x.negated()) == -worth(x),
        x.finite() ==> x.negated().finite(),
{
    lemma_units_of_one();
    assert(x.negated().units() == -x.units());
    let u = x.units() as real;
    let c = unit_count() as real;
    assert((-u) / c == -(u / c)) by (nonlinear_arith)
        requires
            c > 0 as real,
    ;
    assert((-x.units()) as real == -u);
}

/// Finite numbers are ordered as what they are worth.
pub proof fn lemma_worth_order(x: Scalar, y: Scalar)
    requires
        x.finite(),
        y.finite(),
    ensures
        x.at_most(y) <==> worth(x) <= worth(y),
        x.below(y) <==> worth(x) < worth(y),
{
    lemma_units_of_one();
    lemma_units_order(x, y);
    let c = unit_count() as real;
    let (u, v) = (x.units() as real, y.units() as real);
    assert((u <= v <==> u / c <= v / c) && (u < v <==> u / c < v / c)) by (nonlinear_arith)
        requires
            c > 0 as real,
    ;
}

/// What the numbers that stand in the program are worth.
pub proof fn lemma_worth_of_constants()
    ensures
        worth(Scalar { bits: 0 }) == 0 as real,
        worth(Scalar { bits: 0x3f80_0000 }) == 1 as real,
        2 as real * worth(Scalar { bits: 0x3f00_0000 }) == 1 as real,
        2539999960 as real <= 100000000 as real * worth(Scalar { bits: 0x41cb_3333 })
            <= 2540000000 as real,
        1000000 as real <= 1000000000 as real * worth(Scalar { bits: 0x3a83_126f })
            <= 1000001 as real,
        (Scalar { bits: 0 }).finite() && (Scalar { bits: 0x3f80_0000 }).finite(),
        (Scalar { bits: 0x3f00_0000 }).finite() && (Scalar { bits: 0x41cb_3333 }).finite(),
        (Scalar { bits: 0x3a83_126f }).finite(),
{
    lemma_units_of_one();
    lemma2_to64();
    lemma_pow2_pos(116);
    lemma_pow2_adds(116, 10);
    lemma_pow2_adds(116, 9);
    lemma_pow2_adds(116, 14);
    let q = pow2(116) as int;
    let one = 0x80_0000 * (q * 1024);
    let half = 0x80_0000 * (q * 512);
    let inch = 0xcb_3333 * (q * 16384);
    let short = 0x83_126f * q;
    assert(unit_count() == one);
    assert((Scalar { bits: 0x3f00_0000 }).units() == half);
    assert((Scalar { bits: 0x41cb_3333 }).units() == inch);
    assert((Scalar { bits: 0x3a83_126f }).units() == short);
    lemma_ratio(one, 0, 0, 1);
    lemma_ratio(one, one, 1, 1);
    lemma_ratio(one, half, 1, 2);
    lemma_share(one, inch, 2539999960, 100000000);
    lemma_share(one, short, 1000000, 1000000000);
    lemma_share_above(one, inch, 2540000000, 100000000);
    lemma_share_above(one, short, 1000001, 1000000000);
}

proof fn lemma_ratio(one: int, n: int, k: int, m: int)
    requires
        one > 0,
        m > 0,
        n * m == k * one,
    ensures
        m as real * (n as real / one as real) == k as real,
{
    let (c, u) = (one as real, n as real);
    let (kr, mr) = (k as real, m as real);
    assert((n * m) as real == u * mr) by (nonlinear_arith)
        requires
            u == n as real,
            mr == m as real,
    ;
    assert((k * one) as real == kr * c) by (nonlinear_arith)
        requires
            kr == k as real,
            c == one as real,
    ;
    assert(mr * (u / c) == kr) by (nonlinear_arith)
        requires
            u * mr == kr * c,
            c > 0 as real,
    ;
}

proof fn lemma_share(one: int, n: int, k: int, m: int)
    requires
        one > 0,
        m > 0,
        n * m >= k * one,
    ensures
        m as real * (n as real / one as real) >= k as real,
{
    let (c, u) = (one as real, n as real);
    let (kr, mr) = (k as real, m as real);
    assert((n * m) as real == u * mr) by (nonlinear_arith)
        requires
            u == n as real,
            mr == m as real,
    ;
    assert((k * one) as real == kr * c) by (nonlinear_arith)
        requires
            kr == k as real,
            c == one as real,
    ;
    assert(mr * (u / c) >= kr) by (nonlinear_arith)
        requires
            u * mr >= kr * c,
            c > 0 as real,
    ;
}

proof fn lemma_share_above(one: int, n: int, k: int, m: int)
    requires
        one > 0,
        m > 0,
        n * m <= k * one,
    ensures
        m as real * (n as real / one as real) <= k as real,
{
    let (c, u) = (one as real, n as real);
    let (kr, mr) = (k as real, m as real);
    assert((n * m) as real == u * mr) by (nonlinear_arith)
        requires
            u == n as real,
            mr == m as real,
    ;
    assert((k * one) as real == kr * c) by (nonlinear_arith)
        requires
            kr == k as real,
            c == one as real,
    ;
    assert(mr * (u / c) <= kr) by (nonlinear_arith)
        requires
            u * mr <= kr * c,
            c > 0 as real,
    ;
}

/// What the doubles that stand in the program are worth.
pub proof fn lemma_wide_worth_of_constants()
    ensures
        wide_gives(Double { bits: 0x3ff0_0000_0000_0000 }, 1 as real, 0 as real),
        wide_finite(Double { bits: 0x4039_6666_6666_6666 }),
        near(
            10000000 as real * wide_worth(Double { bits: 0x4039_6666_6666_6666 }),
            254000000 as real,
            1 as real,
        ),
{
    lemma2_to64();
    lemma_pow2_pos(1022);
    lemma_pow2_adds(1022, 4);
    let q = pow2(1022) as int;
    let one = 0x10_0000_0000_0000 * q;
    let inch = 0x19_6666_6666_6666 * (q * 16);
    assert(wide_unit_count() == one);
    assert(wide_magnitude_units(0x4039_6666_6666_6666) == inch);
    lemma_ratio(one, one, 1, 1);
    lemma_share(one, inch, 253999999, 10000000);
    lemma_share_above(one, inch, 254000001, 10000000);
}

/// A product of two numbers that are known up to `d` and `e`.
pub proof fn lemma_product(x: real, y: real, p: real, q: real, d: real, e: real)
    requires
        near(x, p, d),
        near(y, q, e),
    ensures
        near(x * y, p * q, d * extent(q) + e * extent(p) + d * e),
{
    let (u, v) = (x - p, y - q);
    assert(x * y - p * q == u * q + p * v + u * v) by (nonlinear_arith)
        requires
            u == x - p,
            v == y - q,
    ;
    assert(near(u * q, 0 as real, d * extent(q))) by (nonlinear_arith)
        requires
            -d <= u <= d,
    ;
    assert(near(p * v, 0 as real, e * extent(p))) by (nonlinear_arith)
        requires
            -e <= v <= e,
    ;
    assert(near(u * v, 0 as real, d * e)) by (nonlinear_arith)
        requires
            -d <= u <= d,
            -e <= v <= e,
    ;
}

proof fn lemma_wide_next(m: int)
    requires
        0 <= m,
    ensures
        0 <= wide_magnitude_units(m) < wide_magnitude_units(m + 1),
{
    let e = m / 0x10_0000_0000_0000;
    let f = m % 0x10_0000_0000_0000;
    if e > 0 {
        let p = pow2((e - 1) as nat) as int;
        lemma_pow2_pos((e - 1) as nat);
        assert(0 <= (0x10_0000_0000_0000 + f) * p && (0x10_0000_0000_0000 + f) * p + p == (
        0x10_0000_0000_0000 + f + 1) * p) by (nonlinear_arith)
            requires
                f >= 0,
                p >= 1,
        ;
        if f == 0xf_ffff_ffff_ffff {
            lemma_pow2_unfold(e as nat);
            assert((m + 1) / 0x10_0000_0000_0000 == e + 1 && (m + 1) % 0x10_0000_0000_0000 == 0);
            assert(pow2(e as nat) == 2 * p);
            assert((e + 1 - 1) as nat == e as nat);
            assert(wide_magnitude_units(m + 1) == 0x10_0000_0000_0000 * (2 * p));
            assert(0x10_0000_0000_0000 * (2 * p) == (0x10_0000_0000_0000 + f + 1) * p)
                by (nonlinear_arith)
                requires
                    f == 0xf_ffff_ffff_ffff,
            ;
        } else {
            assert((m + 1) / 0x10_0000_0000_0000 == e && (m + 1) % 0x10_0000_0000_0000 == f + 1);
            assert(wide_magnitude_units(m + 1) == (0x10_0000_0000_0000 + (f + 1)) * p);
        }
    } else if f == 0xf_ffff_ffff_ffff {
        lemma_pow2_pos(0);
        assert(m + 1 == 0x10_0000_0000_0000);
        assert(wide_magnitude_units(m + 1) == 0x10_0000_0000_0000 * pow2(0));
        assert(0x10_0000_0000_0000 * pow2(0) >= 0x10_0000_0000_0000) by (nonlinear_arith)
            requires
                pow2(0) >= 1,
        ;
    } else {
        assert((m + 1) / 0x10_0000_0000_0000 == 0 && (m + 1) % 0x10_0000_0000_0000 == f + 1);
    }
}

proof fn lemma_wide_magnitudes(m: int, n: int)
    requires
        0 <= m <= n,
    ensures
        0 <= wide_magnitude_units(m) <= wide_magnitude_units(n),
        m < n ==> wide_magnitude_units(m) < wide_magnitude_units(n),
    decreases n - m,
{
    lemma_wide_next(m);
    if m < n {
        lemma_wide_magnitudes(m + 1, n);
    }
}

/// The value of a finite double with its sign, in units of the least positive double.
spec fn wide_units(x: Double) -> int {
    if x.negative() {
        -wide_magnitude_units(x.magnitude())
    } else {
        wide_magnitude_units(x.magnitude())
    }
}

proof fn lemma_wide_worth_units(x: Double)
    ensures
        wide_worth(x) == wide_units(x) as real / wide_unit_count() as real,
        wide_unit_count() > 0,
{
    lemma_wide_magnitudes(0, 0x3ff0_0000_0000_0000);
    assert(wide_magnitude_units(0) == 0);
    let c = wide_unit_count() as real;
    let u = wide_magnitude_units(x.magnitude()) as real;
    assert((-u) / c == -(u / c)) by (nonlinear_arith)
        requires
            c > 0 as real,
    ;
    assert((-wide_magnitude_units(x.magnitude())) as real == -u);
}

/// Finite doubles are ordered as what they are worth.
pub proof fn lemma_wide_worth_order(x: Double, y: Double)
    requires
        wide_finite(x),
        wide_finite(y),
    ensures
        x.at_most(y) <==> wide_worth(x) <= wide_worth(y),
        x.below(y) <==> wide_worth(x) < wide_worth(y),
{
    let (p, q) = (x.magnitude(), y.magnitude());
    if p <= q {
        lemma_wide_magnitudes(p, q);
    } else {
        lemma_wide_magnitudes(q, p);
    }
    lemma_wide_magnitudes(0, p);
    lemma_wide_magnitudes(0, q);
    assert(wide_magnitude_units(0) == 0);
    lemma_wide_worth_units(x);
    lemma_wide_worth_units(y);
    let c = wide_unit_count() as real;
    let (u, v) = (wide_units(x) as real, wide_units(y) as real);
    assert((u <= v <==> u / c <= v / c) && (u < v <==> u / c < v / c)) by (nonlinear_arith)
        requires
            c > 0 as real,
    ;
}

/// What a double is worth without its sign, and with the opposite sign.
pub proof fn lemma_wide_worth_signs(x: Double)
    ensures
        wide_worth(x.absolute()) == extent(wide_worth(x)),
        wide_worth(x.negated()) == -wide_worth(x),
        wide_finite(x) ==> wide_finite(x.absolute()) && wide_finite(x.negated()),
{
    lemma_wide_magnitudes(0, x.magnitude());
    assert(wide_magnitude_units(0) == 0);
    lemma_wide_worth_units(x);
    let c = wide_unit_count() as real;
    let u = wide_magnitude_units(x.magnitude()) as real;
    assert(u / c >= 0 as real) by (nonlinear_arith)
        requires
            c > 0 as real,
            u >= 0 as real,
    ;
    assert(x.absolute().magnitude() == x.magnitude());
    assert(x.negated().magnitude() == x.magnitude());
}

/// What a single is worth without its sign.
pub proof fn lemma_worth_absolute(x: Scalar)
    ensures
        worth(x.absolute()) == extent(worth(x)),
        x.finite() ==> x.absolute().finite(),
{
    lemma_worth_negated(x);
    lemma_units_of_one();
    lemma_units_order(Scalar { bits: 0 }, x.absolute());
    let y = x.absolute();
    let u = y.units() as real;
    let c = unit_count() as real;
    assert(u / c >= 0 as real) by (nonlinear_arith)
        requires
            c > 0 as real,
            u >= 0 as real,
    ;
    if x.negative() {
        assert(y == x.negated());
    } else {
        assert(y == x);
    }
}

} // verus!
