//! What holds of the surface that a height map describes, up to rounding.
//!
//! Values are counted in units of the least positive single, so that they are whole numbers.
use vstd::prelude::*;
use crate::arith::{
    lemma_units_of_one, lemma_units_order, minus, over, plus, single_of, times, to_unsigned,
    unit_count, Arithmetic, Scalar, ONE,
};
use crate::grbl::heightmap::{
    blend, cell, extremes, grid_coordinate, grid_point, height_at, lemma_extremes, part, point_on,
    Plane,
};

verus! {

/// Whether `x` and `y` are no more than `d` apart.
pub open spec fn close(x: int, y: int, d: int) -> bool {
    -d <= x - y <= d
}

/// Whether sums, differences, products and quotients of finite numbers are rounded by no more than
/// `eps`, where they come to no more than `bound`.
pub open spec fn rounds<A: Arithmetic>(a: &A, bound: int, eps: int) -> bool {
    &&& forall|x: Scalar, y: Scalar|
        #![trigger plus(a, x, y)]
        x.finite() && y.finite() && close(x.units() + y.units(), 0, bound) ==> plus(
            a,
            x,
            y,
        ).finite() && close(plus(a, x, y).units(), x.units() + y.units(), eps)
    &&& forall|x: Scalar, y: Scalar|
        #![trigger minus(a, x, y)]
        x.finite() && y.finite() && close(x.units() - y.units(), 0, bound) ==> minus(
            a,
            x,
            y,
        ).finite() && close(minus(a, x, y).units(), x.units() - y.units(), eps)
    &&& forall|x: Scalar, y: Scalar|
        #![trigger times(a, x, y)]
        x.finite() && y.finite() && close(x.units() * y.units(), 0, bound * unit_count())
            ==> times(a, x, y).finite() && close(
            times(a, x, y).units() * unit_count(),
            x.units() * y.units(),
            eps * unit_count(),
        )
    &&& forall|x: Scalar, y: Scalar|
        #![trigger over(a, x, y)]
        x.finite() && y.finite() && y.units() > 0 && close(
            x.units() * unit_count(),
            0,
            bound * y.units(),
        ) ==> over(a, x, y).finite() && close(
            over(a, x, y).units() * y.units(),
            x.units() * unit_count(),
            eps * y.units(),
        )
}

/// The weight of a corner: the product of two parts of a side, each known up to `e`.
proof fn lemma_weight(one: int, e: int, up: int, uq: int, p: int, q: int, w: int)
    requires
        0 <= e <= one,
        0 <= p <= one,
        0 <= q <= one,
        close(up, p, e),
        close(uq, q, e),
        close(w * one, up * uq, e * one),
    ensures
        close(w * one, p * q, 4 * e * one),
{
    assert(up * uq - p * q == (up - p) * uq + p * (uq - q)) by (nonlinear_arith);
    assert(close((up - p) * uq, 0, e * (one + e))) by (nonlinear_arith)
        requires
            -e <= up - p <= e,
            -(one + e) <= uq <= one + e,
            0 <= e,
    ;
    assert(close(p * (uq - q), 0, one * e)) by (nonlinear_arith)
        requires
            -e <= uq - q <= e,
            0 <= p <= one,
            0 <= e,
    ;
    assert(e * (one + e) <= 2 * (e * one)) by (nonlinear_arith)
        requires
            0 <= e <= one,
    ;
    assert(one * e == e * one) by (nonlinear_arith);
    assert(4 * e * one == 4 * (e * one)) by (nonlinear_arith);
}

/// The share of a corner's height.
proof fn lemma_share(one: int, e: int, w: int, full: int, z: int, most: int, t: int)
    requires
        0 < one,
        0 <= e,
        close(z, 0, most),
        close(w * one, full, 4 * e * one),
        close(t * one, w * z, e * one),
    ensures
        close(t * (one * one), full * z, e * (one * one) + 4 * e * one * most),
{
    assert(t * (one * one) - full * z == one * (t * one - w * z) + z * (w * one - full))
        by (nonlinear_arith);
    let k = 4 * e * one;
    assert(close(one * (t * one - w * z), 0, one * (e * one))) by (nonlinear_arith)
        requires
            -(e * one) <= t * one - w * z <= e * one,
            0 < one,
    ;
    assert(k >= 0) by (nonlinear_arith)
        requires
            k == 4 * e * one,
            e >= 0,
            one > 0,
    ;
    assert(close(z * (w * one - full), 0, k * most)) by (nonlinear_arith)
        requires
            -k <= w * one - full <= k,
            -most <= z <= most,
            k >= 0,
    ;
    assert(one * (e * one) == e * (one * one)) by (nonlinear_arith);
}

/// The four weights.
pub open spec fn weight(one: int, u: int, v: int, right: bool, back: bool) -> int {
    (if right {
        u
    } else {
        one - u
    }) * (if back {
        v
    } else {
        one - v
    })
}

/// The mean of four values with these weights, times the square of one.
pub open spec fn mean(one: int, u: int, v: int, z00: int, z10: int, z01: int, z11: int) -> int {
    weight(one, u, v, false, false) * z00 + weight(one, u, v, true, false) * z10 + weight(
        one,
        u,
        v,
        false,
        true,
    ) * z01 + weight(one, u, v, true, true) * z11
}

proof fn lemma_weights(one: int, u: int, v: int)
    requires
        0 <= u <= one,
        0 <= v <= one,
    ensures
        weight(one, u, v, false, false) >= 0,
        weight(one, u, v, true, false) >= 0,
        weight(one, u, v, false, true) >= 0,
        weight(one, u, v, true, true) >= 0,
        weight(one, u, v, false, false) + weight(one, u, v, true, false) + weight(
            one,
            u,
            v,
            false,
            true,
        ) + weight(one, u, v, true, true) == one * one,
{
    assert((one - u) * (one - v) >= 0 && u * (one - v) >= 0 && (one - u) * v >= 0 && u * v >= 0)
        by (nonlinear_arith)
        requires
            0 <= u <= one,
            0 <= v <= one,
    ;
    assert((one - u) * (one - v) + u * (one - v) + (one - u) * v + u * v == one * one)
        by (nonlinear_arith);
}

/// A mean lies between the least and the greatest value.
proof fn lemma_mean_between(
    one: int,
    u: int,
    v: int,
    z00: int,
    z10: int,
    z01: int,
    z11: int,
    lo: int,
    hi: int,
)
    requires
        0 <= u <= one,
        0 <= v <= one,
        lo <= z00 <= hi,
        lo <= z10 <= hi,
        lo <= z01 <= hi,
        lo <= z11 <= hi,
    ensures
        (one * one) * lo <= mean(one, u, v, z00, z10, z01, z11) <= (one * one) * hi,
{
    lemma_weights(one, u, v);
    let w00 = weight(one, u, v, false, false);
    let w10 = weight(one, u, v, true, false);
    let w01 = weight(one, u, v, false, true);
    let w11 = weight(one, u, v, true, true);
    lemma_scaled(w00, lo, z00, hi);
    lemma_scaled(w10, lo, z10, hi);
    lemma_scaled(w01, lo, z01, hi);
    lemma_scaled(w11, lo, z11, hi);
    assert((w00 + w10 + w01 + w11) * lo == w00 * lo + w10 * lo + w01 * lo + w11 * lo)
        by (nonlinear_arith);
    assert((w00 + w10 + w01 + w11) * hi == w00 * hi + w10 * hi + w01 * hi + w11 * hi)
        by (nonlinear_arith);
}

proof fn lemma_scaled(w: int, lo: int, z: int, hi: int)
    requires
        w >= 0,
        lo <= z <= hi,
    ensures
        w * lo <= w * z <= w * hi,
{
    assert(w * lo <= w * z <= w * hi) by (nonlinear_arith)
        requires
            w >= 0,
            lo <= z <= hi,
    ;
}

/// The height is the mean of its four neighbours, up to rounding.
proof fn lemma_blend<A: Arithmetic>(
    a: &A,
    u: Scalar,
    v: Scalar,
    z00: Scalar,
    z10: Scalar,
    z01: Scalar,
    z11: Scalar,
    most: int,
    bound: int,
    eps: int,
)
    requires
        rounds(a, bound, eps),
        0 <= eps,
        8 * eps <= unit_count(),
        0 <= most,
        8 * most + 2 * unit_count() <= bound,
        u.finite() && v.finite(),
        0 <= u.units() <= unit_count(),
        0 <= v.units() <= unit_count(),
        z00.finite() && z10.finite() && z01.finite() && z11.finite(),
        close(z00.units(), 0, most) && close(z10.units(), 0, most),
        close(z01.units(), 0, most) && close(z11.units(), 0, most),
    ensures
        ({
            let one = unit_count();
            let h = blend(a, u, v, z00, z10, z01, z11);
            &&& h.finite()
            &&& close(
                h.units() * (one * one),
                mean(
                    one,
                    u.units(),
                    v.units(),
                    z00.units(),
                    z10.units(),
                    z01.units(),
                    z11.units(),
                ),
                7 * eps * (one * one) + 16 * eps * one * most,
            )
        }),
{
    let one = unit_count();
    lemma_units_of_one();
    let n = Scalar { bits: ONE };
    let e = eps;
    let p = minus(a, n, u);
    let q = minus(a, n, v);
    let w00 = times(a, p, q);
    let w10 = times(a, u, q);
    let w01 = times(a, p, v);
    let w11 = times(a, u, v);
    lemma_product_bound(one, e, p.units(), q.units(), bound);
    lemma_product_bound(one, e, u.units(), q.units(), bound);
    lemma_product_bound(one, e, p.units(), v.units(), bound);
    lemma_product_bound(one, e, u.units(), v.units(), bound);
    let (x, y) = (u.units(), v.units());
    lemma_weight(one, e, p.units(), q.units(), one - x, one - y, w00.units());
    lemma_weight(one, e, x, q.units(), x, one - y, w10.units());
    lemma_weight(one, e, p.units(), y, one - x, y, w01.units());
    lemma_weight(one, e, x, y, x, y, w11.units());
    lemma_weights(one, x, y);
    let t00 = lemma_term(a, w00, z00, weight(one, x, y, false, false), most, bound, e);
    let t10 = lemma_term(a, w10, z10, weight(one, x, y, true, false), most, bound, e);
    let t01 = lemma_term(a, w01, z01, weight(one, x, y, false, true), most, bound, e);
    let t11 = lemma_term(a, w11, z11, weight(one, x, y, true, true), most, bound, e);
    let s1 = plus(a, t00, t10);
    let s2 = plus(a, s1, t01);
    let h = plus(a, s2, t11);
    assert(s1.finite() && s2.finite() && h.finite());
    let sum = t00.units() + t10.units() + t01.units() + t11.units();
    assert(close(h.units(), sum, 3 * e));
    let sq = one * one;
    let goal = mean(one, x, y, z00.units(), z10.units(), z01.units(), z11.units());
    let share = e * sq + 4 * e * one * most;
    assert(close(sum * sq, goal, 4 * share)) by {
        assert(sum * sq == t00.units() * sq + t10.units() * sq + t01.units() * sq + t11.units()
            * sq) by (nonlinear_arith)
            requires
                sum == t00.units() + t10.units() + t01.units() + t11.units(),
        ;
    }
    assert(close(h.units() * sq, sum * sq, 3 * (e * sq))) by (nonlinear_arith)
        requires
            -(3 * e) <= h.units() - sum <= 3 * e,
            sq == one * one,
            one > 0,
    ;
    assert(3 * (e * sq) + 4 * share == 7 * e * sq + 16 * e * one * most) by (nonlinear_arith)
        requires
            share == e * sq + 4 * e * one * most,
    ;
}

proof fn lemma_product_bound(one: int, e: int, x: int, y: int, bound: int)
    requires
        0 <= e,
        8 * e <= one,
        -e <= x <= one + e,
        -e <= y <= one + e,
        2 * one <= bound,
    ensures
        close(x * y, 0, bound * one),
{
    let m = one + e;
    assert(close(x * y, 0, m * m)) by (nonlinear_arith)
        requires
            -m <= x <= m,
            -m <= y <= m,
    ;
    assert(m * m <= bound * one) by (nonlinear_arith)
        requires
            m == one + e,
            0 <= e,
            8 * e <= one,
            2 * one <= bound,
    ;
}

/// The rounded share of a corner's height.
proof fn lemma_term<A: Arithmetic>(
    a: &A,
    w: Scalar,
    z: Scalar,
    full: int,
    most: int,
    bound: int,
    e: int,
) -> (t: Scalar)
    requires
        rounds(a, bound, e),
        0 <= e,
        8 * e <= unit_count(),
        0 <= most,
        8 * most + 2 * unit_count() <= bound,
        w.finite() && z.finite(),
        close(z.units(), 0, most),
        0 <= full <= unit_count() * unit_count(),
        close(w.units() * unit_count(), full, 4 * e * unit_count()),
    ensures
        t == times(a, w, z),
        t.finite(),
        close(t.units(), 0, 2 * most + e),
        close(
            t.units() * (unit_count() * unit_count()),
            full * z.units(),
            e * (unit_count() * unit_count()) + 4 * e * unit_count() * most,
        ),
{
    let one = unit_count();
    lemma_units_of_one();
    let t = times(a, w, z);
    let (wu, zu) = (w.units(), z.units());
    assert(-(2 * one) <= wu <= 2 * one) by (nonlinear_arith)
        requires
            -(4 * e * one) <= wu * one - full <= 4 * e * one,
            0 <= full <= one * one,
            8 * e <= one,
            0 <= e,
            0 < one,
    ;
    assert(close(wu * zu, 0, 2 * one * most)) by (nonlinear_arith)
        requires
            -(2 * one) <= wu <= 2 * one,
            -most <= zu <= most,
    ;
    assert(2 * one * most <= bound * one) by (nonlinear_arith)
        requires
            2 * most <= bound,
            one > 0,
    ;
    let tu = t.units();
    assert(-(2 * most + e) <= tu <= 2 * most + e) by (nonlinear_arith)
        requires
            -(e * one) <= tu * one - wu * zu <= e * one,
            -(2 * one * most) <= wu * zu <= 2 * one * most,
            one > 0,
    ;
    lemma_share(one, e, wu, full, zu, most, tu);
    t
}

/// A part of a cell that is a number lies between zero and one.
proof fn lemma_part<A: Arithmetic>(a: &A, f: Scalar, i: u32)
    requires
        !part(a, f, i).nan(),
    ensures
        part(a, f, i).finite(),
        0 <= part(a, f, i).units() <= unit_count(),
{
    let u = part(a, f, i);
    let zero = Scalar { bits: 0 };
    let one = Scalar { bits: ONE };
    lemma_units_of_one();
    lemma_units_order(zero, u);
    lemma_units_order(u, one);
}

/// The plane has a height for each point, all finite and none larger than `most` in size.
pub open spec fn sound(p: Plane, most: int) -> bool {
    &&& p.grid_x >= 2
    &&& p.grid_y >= 2
    &&& p.z.len() == p.grid_x * p.grid_y
    &&& forall|k: int|
        0 <= k < p.z.len() ==> (#[trigger] p.z[k]).finite() && close(p.z[k].units(), 0, most)
}

/// Whether the rounding is small and the bound large enough for heights up to `most`.
pub open spec fn roomy(most: int, bound: int, eps: int) -> bool {
    &&& 0 <= eps
    &&& 8 * eps <= unit_count()
    &&& 0 <= most
    &&& 8 * most + 2 * unit_count() <= bound
}

/// The cell that a point falls into is one of the grid.
proof fn lemma_cell_index<A: Arithmetic>(a: &A, p: Plane, fx: Scalar, fy: Scalar, most: int)
    requires
        sound(p, most),
    ensures
        ({
            let i = cell(a, fx, p.grid_x) as int;
            let j = cell(a, fy, p.grid_y) as int;
            &&& i + 2 <= p.grid_x
            &&& j + 2 <= p.grid_y
            &&& 0 <= j * p.grid_x + i
            &&& j * p.grid_x + i + 1 < p.z.len()
            &&& 0 <= (j + 1) * p.grid_x + i
            &&& (j + 1) * p.grid_x + i + 1 < p.z.len()
        }),
{
    let i = cell(a, fx, p.grid_x) as int;
    let j = cell(a, fy, p.grid_y) as int;
    let gx = p.grid_x as int;
    let gy = p.grid_y as int;
    assert(0 <= j * gx && j * gx + gx == (j + 1) * gx && (j + 1) * gx + gx <= gx * gy)
        by (nonlinear_arith)
        requires
            0 <= j,
            j + 2 <= gy,
            gx >= 2,
    ;
}

/// The surface lies between the least and the greatest height, up to rounding.
pub proof fn lemma_height_between<A: Arithmetic>(
    a: &A,
    p: Plane,
    x: Scalar,
    y: Scalar,
    most: int,
    bound: int,
    eps: int,
)
    requires
        rounds(a, bound, eps),
        roomy(most, bound, eps),
        sound(p, most),
        ({
            let fx = grid_coordinate(a, x, p.bbox_min.0, p.bbox_max.0, p.grid_x);
            let fy = grid_coordinate(a, y, p.bbox_min.1, p.bbox_max.1, p.grid_y);
            !part(a, fx, cell(a, fx, p.grid_x)).nan() && !part(a, fy, cell(a, fy, p.grid_y)).nan()
        }),
    ensures
        ({
            let one = unit_count();
            let slack = 7 * eps * one + 16 * eps * most;
            let h = height_at(a, p, x, y);
            &&& h.finite()
            &&& extremes(p.z).0.units() * one - slack <= h.units() * one
            &&& h.units() * one <= extremes(p.z).1.units() * one + slack
        }),
{
    let one = unit_count();
    lemma_units_of_one();
    let fx = grid_coordinate(a, x, p.bbox_min.0, p.bbox_max.0, p.grid_x);
    let fy = grid_coordinate(a, y, p.bbox_min.1, p.bbox_max.1, p.grid_y);
    let i = cell(a, fx, p.grid_x);
    let j = cell(a, fy, p.grid_y);
    let (u, v) = (part(a, fx, i), part(a, fy, j));
    lemma_part(a, fx, i);
    lemma_part(a, fy, j);
    lemma_cell_index(a, p, fx, fy, most);
    let z00 = p.z[j * p.grid_x + i];
    let z10 = p.z[j * p.grid_x + i + 1];
    let z01 = p.z[(j + 1) * p.grid_x + i];
    let z11 = p.z[(j + 1) * p.grid_x + i + 1];
    lemma_extremes(p.z);
    let (lo, hi) = extremes(p.z);
    assert forall|k: int| 0 <= k < p.z.len() implies lo.units() <= (#[trigger] p.z[k]).units()
        <= hi.units() by {
        lemma_units_order(lo, p.z[k]);
        lemma_units_order(p.z[k], hi);
    }
    lemma_blend(a, u, v, z00, z10, z01, z11, most, bound, eps);
    lemma_mean_between(
        one,
        u.units(),
        v.units(),
        z00.units(),
        z10.units(),
        z01.units(),
        z11.units(),
        lo.units(),
        hi.units(),
    );
    let h = height_at(a, p, x, y).units();
    lemma_divide(one, lo.units(), h, 7 * eps * one + 16 * eps * most);
    lemma_divide(one, h, hi.units(), 7 * eps * one + 16 * eps * most);
    assert(7 * eps * (one * one) + 16 * eps * one * most == (7 * eps * one + 16 * eps * most)
        * one) by (nonlinear_arith);
    assert((one * one) * lo.units() == lo.units() * (one * one)) by (nonlinear_arith);
    assert((one * one) * hi.units() == hi.units() * (one * one)) by (nonlinear_arith);
}

/// An inequality between multiples of the square of one, divided by one.
proof fn lemma_divide(one: int, x: int, y: int, slack: int)
    requires
        one > 0,
    ensures
        x * (one * one) <= y * (one * one) + slack * one ==> x * one <= y * one + slack,
{
    if x * one > y * one + slack {
        assert(x * (one * one) > y * (one * one) + slack * one) by (nonlinear_arith)
            requires
                x * one > y * one + slack,
                one > 0,
        ;
    }
}

/// Whether whole numbers are counted exactly: as singles, as far as those tell them apart, and as
/// the integer parts of numbers.
pub open spec fn counts<A: Arithmetic>(a: &A) -> bool {
    &&& forall|n: u64|
        n <= 0x100_0000 ==> (#[trigger] single_of(a, n)).finite() && single_of(a, n).units() == n
            * unit_count()
    &&& forall|x: Scalar, max: u64|
        x.finite() ==> #[trigger] to_unsigned(a, x, max) == if x.units() < 0 {
            0
        } else if x.units() / unit_count() < max {
            x.units() / unit_count()
        } else {
            max as int
        }
}

/// A coordinate close to the whole number `n` falls into a cell at that node, close to it.
proof fn lemma_near_node<A: Arithmetic>(
    a: &A,
    f: Scalar,
    n: u32,
    grid: u32,
    d: int,
    bound: int,
    eps: int,
)
    requires
        rounds(a, bound, eps),
        counts(a),
        0 <= eps,
        8 * eps <= unit_count(),
        2 * unit_count() <= bound,
        2 <= grid <= 0x100_0000,
        n < grid,
        f.finite(),
        0 <= d,
        2 * d <= unit_count(),
        close(f.units(), n * unit_count(), d),
    ensures
        ({
            let c = cell(a, f, grid);
            let u = part(a, f, c);
            &&& u.finite()
            &&& 0 <= u.units() <= unit_count()
            &&& c + 2 <= grid
            &&& c == n && u.units() <= d + eps || c + 1 == n && unit_count() - u.units() <= d + eps
        }),
{
    let one = unit_count();
    lemma_units_of_one();
    let c = cell(a, f, grid);
    let x = f.units();
    let whole = x / one;
    if x >= 0 {
        vstd::arithmetic::div_mod::lemma_fundamental_div_mod(x, one);
        vstd::arithmetic::div_mod::lemma_mod_bound(x, one);
        assert(whole == n || whole == n - 1) by (nonlinear_arith)
            requires
                x == one * whole + x % one,
                0 <= x % one < one,
                -d <= x - n * one <= d,
                2 * d <= one,
                one > 0,
        ;
        assert(whole == n - 1 ==> x < n * one) by (nonlinear_arith)
            requires
                x == one * whole + x % one,
                0 <= x % one < one,
        ;
    } else {
        assert(n == 0) by (nonlinear_arith)
            requires
                x < 0,
                -d <= x - n * one,
                2 * d <= one,
                one > 0,
                n >= 0,
        ;
    }
    assert(c == n || c + 1 == n);
    let s = single_of(a, c as u64);
    let exact = x - c * one;
    assert(n * one - c * one == (n - c) * one) by (nonlinear_arith);
    assert(close(exact, (n - c) * one, d));
    let m = minus(a, f, s);
    assert(close(exact, 0, bound)) by {
        assert((n - c) * one <= one && 0 <= (n - c) * one) by (nonlinear_arith)
            requires
                0 <= n - c <= 1,
                one > 0,
        ;
    }
    assert(close(m.units(), exact, eps));
    let zero = Scalar { bits: 0 };
    let full = Scalar { bits: ONE };
    lemma_units_order(m, zero);
    lemma_units_order(full, m);
    lemma_units_order(zero, m);
    lemma_part(a, f, c);
    if c == n {
        assert((n - c) * one == 0) by (nonlinear_arith)
            requires
                n - c == 0,
        ;
    } else {
        assert((n - c) * one == one) by (nonlinear_arith)
            requires
                n - c == 1,
        ;
    }
}

proof fn lemma_distribute(w: int, x: int, y: int)
    ensures
        w * (x - y) == w * x - w * y,
{
    assert(w * (x - y) == w * x - w * y) by (nonlinear_arith);
}

/// A mean whose weights lie close to one corner is close to that corner's value.
proof fn lemma_mean_at_corner(
    one: int,
    u: int,
    v: int,
    zs: (int, int, int, int),
    right: bool,
    back: bool,
    d: int,
    most: int,
)
    requires
        0 <= u <= one,
        0 <= v <= one,
        0 <= d,
        (if right {
            one - u
        } else {
            u
        }) <= d,
        (if back {
            one - v
        } else {
            v
        }) <= d,
        close(zs.0, 0, most) && close(zs.1, 0, most) && close(zs.2, 0, most) && close(
            zs.3,
            0,
            most,
        ),
    ensures
        close(
            mean(one, u, v, zs.0, zs.1, zs.2, zs.3),
            (one * one) * (if back {
                if right {
                    zs.3
                } else {
                    zs.2
                }
            } else if right {
                zs.1
            } else {
                zs.0
            }),
            4 * one * d * most,
        ),
{
    lemma_weights(one, u, v);
    let w00 = weight(one, u, v, false, false);
    let w10 = weight(one, u, v, true, false);
    let w01 = weight(one, u, v, false, true);
    let w11 = weight(one, u, v, true, true);
    let z = if back {
        if right {
            zs.3
        } else {
            zs.2
        }
    } else if right {
        zs.1
    } else {
        zs.0
    };
    let two = 2 * most;
    lemma_scaled(w00, -two, zs.0 - z, two);
    lemma_scaled(w10, -two, zs.1 - z, two);
    lemma_scaled(w01, -two, zs.2 - z, two);
    lemma_scaled(w11, -two, zs.3 - z, two);
    let sq = one * one;
    lemma_distribute(w00, zs.0, z);
    lemma_distribute(w10, zs.1, z);
    lemma_distribute(w01, zs.2, z);
    lemma_distribute(w11, zs.3, z);
    assert((w00 + w10 + w01 + w11) * z == w00 * z + w10 * z + w01 * z + w11 * z)
        by (nonlinear_arith);
    let own = weight(one, u, v, right, back);
    let p = if right {
        u
    } else {
        one - u
    };
    let q = if back {
        v
    } else {
        one - v
    };
    assert(sq - own <= 2 * one * d) by (nonlinear_arith)
        requires
            own == p * q,
            sq == one * one,
            0 <= p <= one,
            0 <= q <= one,
            one - p <= d,
            one - q <= d,
    ;
    assert((sq - own) * two <= (2 * one * d) * two) by (nonlinear_arith)
        requires
            sq - own <= 2 * one * d,
            two >= 0,
    ;
    assert((2 * one * d) * two == 4 * one * d * most) by (nonlinear_arith)
        requires
            two == 2 * most,
    ;
    assert(w00 * two + w10 * two + w01 * two + w11 * two == sq * two) by (nonlinear_arith)
        requires
            w00 + w10 + w01 + w11 == sq,
    ;
    assert((sq - own) * two == sq * two - own * two) by (nonlinear_arith);
    assert(w00 * (-two) == -(w00 * two) && w10 * (-two) == -(w10 * two) && w01 * (-two) == -(w01
        * two) && w11 * (-two) == -(w11 * two)) by (nonlinear_arith);
    assert(own * 0 == 0);
}

/// Where the coordinates of a point are found to within `d` of those of a node, the surface has
/// the height of that node, up to rounding and as far as the heights differ over `d`.
pub proof fn lemma_height_near_node<A: Arithmetic>(
    a: &A,
    p: Plane,
    x: Scalar,
    y: Scalar,
    i: u32,
    j: u32,
    d: int,
    most: int,
    bound: int,
    eps: int,
)
    requires
        rounds(a, bound, eps),
        counts(a),
        roomy(most, bound, eps),
        sound(p, most),
        p.grid_x <= 0x100_0000 && p.grid_y <= 0x100_0000,
        i < p.grid_x && j < p.grid_y,
        0 <= d,
        2 * d <= unit_count(),
        ({
            let fx = grid_coordinate(a, x, p.bbox_min.0, p.bbox_max.0, p.grid_x);
            let fy = grid_coordinate(a, y, p.bbox_min.1, p.bbox_max.1, p.grid_y);
            &&& fx.finite() && close(fx.units(), i * unit_count(), d)
            &&& fy.finite() && close(fy.units(), j * unit_count(), d)
        }),
    ensures
        height_at(a, p, x, y).finite(),
        close(
            height_at(a, p, x, y).units() * unit_count(),
            p.z[j * p.grid_x + i].units() * unit_count(),
            7 * eps * unit_count() + 16 * eps * most + 4 * (d + eps) * most,
        ),
{
    let one = unit_count();
    lemma_units_of_one();
    let fx = grid_coordinate(a, x, p.bbox_min.0, p.bbox_max.0, p.grid_x);
    let fy = grid_coordinate(a, y, p.bbox_min.1, p.bbox_max.1, p.grid_y);
    let ci = cell(a, fx, p.grid_x);
    let cj = cell(a, fy, p.grid_y);
    let (u, v) = (part(a, fx, ci), part(a, fy, cj));
    lemma_near_node(a, fx, i, p.grid_x, d, bound, eps);
    lemma_near_node(a, fy, j, p.grid_y, d, bound, eps);
    lemma_cell_index(a, p, fx, fy, most);
    let z00 = p.z[cj * p.grid_x + ci];
    let z10 = p.z[cj * p.grid_x + ci + 1];
    let z01 = p.z[(cj + 1) * p.grid_x + ci];
    let z11 = p.z[(cj + 1) * p.grid_x + ci + 1];
    lemma_blend(a, u, v, z00, z10, z01, z11, most, bound, eps);
    let right = ci != i;
    let back = cj != j;
    lemma_mean_at_corner(
        one,
        u.units(),
        v.units(),
        (z00.units(), z10.units(), z01.units(), z11.units()),
        right,
        back,
        d + eps,
        most,
    );
    let z = p.z[j * p.grid_x + i].units();
    let h = height_at(a, p, x, y).units();
    let slack = 7 * eps * one + 16 * eps * most + 4 * (d + eps) * most;
    assert(7 * eps * (one * one) + 16 * eps * one * most + 4 * one * (d + eps) * most == slack * one)
        by (nonlinear_arith)
        requires
            slack == 7 * eps * one + 16 * eps * most + 4 * (d + eps) * most,
    ;
    assert((one * one) * z == z * (one * one)) by (nonlinear_arith);
    lemma_divide(one, z, h, slack);
    lemma_divide(one, h, z, slack);
}

/// Whether a side of the box is long and the bound large enough for its nodes to be found again:
/// those of a side from `lo` to `hi` with `n` points, to within `d`.
pub open spec fn findable(lo: Scalar, hi: Scalar, n: u32, d: int, bound: int, eps: int) -> bool {
    let one = unit_count();
    let side = hi.units() - lo.units();
    &&& lo.finite() && hi.finite()
    &&& 2 <= n <= 0x100_0000
    &&& side > 0
    &&& 0 <= 2 * eps <= side
    &&& 8 * eps <= one
    &&& close(lo.units(), 0, bound - 4 * side)
    &&& 4 * side <= bound
    &&& 4 * (n - 1) * one <= bound
    &&& eps * (n - 1) * (12 * side + 10 * one) <= d * side
}

/// The way from `lo` to the node `i` of `l`, up to rounding.
proof fn lemma_way(one: int, e: int, l: int, i: int, side: int, r: int, s: int, m: int)
    requires
        one > 0,
        e >= 0,
        8 * e <= one,
        2 * e <= side,
        side > 0,
        0 <= i <= l,
        l >= 1,
        close(r * (l * one), (i * one) * one, e * (l * one)),
        close(s, side, e),
        close(m * one, r * s, e * one),
    ensures
        close(r * l, i * one, e * l),
        -(2 * one) <= r <= 2 * one,
        close(m * l * one, i * side * one, 2 * e * l * one + 2 * e * l * side),
{
    assert(close(r * l, i * one, e * l)) by {
        assert(r * (l * one) - (i * one) * one == (r * l - i * one) * one) by (nonlinear_arith);
        assert(e * (l * one) == (e * l) * one) by (nonlinear_arith);
        assert(close(r * l - i * one, 0, e * l)) by (nonlinear_arith)
            requires
                -((e * l) * one) <= (r * l - i * one) * one <= (e * l) * one,
                one > 0,
        ;
    }
    assert(-(2 * one) <= r <= 2 * one) by (nonlinear_arith)
        requires
            -(e * l) <= r * l - i * one <= e * l,
            0 <= i <= l,
            l >= 1,
            8 * e <= one,
            0 <= e,
            one > 0,
    ;
    let p = m * one - r * s;
    assert(m * l * one - r * l * s == l * p) by (nonlinear_arith)
        requires
            p == m * one - r * s,
    ;
    assert(close(l * p, 0, e * l * one)) by (nonlinear_arith)
        requires
            -(e * one) <= p <= e * one,
            l >= 1,
    ;
    let q = r * l - i * one;
    assert(r * l * s - i * one * s == q * s) by (nonlinear_arith)
        requires
            q == r * l - i * one,
    ;
    assert(0 <= s <= 2 * side);
    assert(close(q * s, 0, 2 * e * l * side)) by (nonlinear_arith)
        requires
            -(e * l) <= q <= e * l,
            0 <= s <= 2 * side,
            e >= 0,
            l >= 1,
    ;
    assert(i * one * s - i * side * one == i * one * (s - side)) by (nonlinear_arith);
    assert(close(i * one * (s - side), 0, e * l * one)) by (nonlinear_arith)
        requires
            -e <= s - side <= e,
            0 <= i <= l,
            one > 0,
            e >= 0,
    ;
    assert(e * l * one + e * l * one == 2 * e * l * one) by (nonlinear_arith);
}

/// Back from a place near the node `i` of `l` to its coordinate, up to rounding.
proof fn lemma_way_back(
    one: int,
    e: int,
    l: int,
    i: int,
    side: int,
    s: int,
    y: int,
    g: int,
    f: int,
    d: int,
)
    requires
        one > 0,
        e >= 0,
        2 * e <= side,
        side > 0,
        0 <= i <= l,
        l >= 1,
        close(s, side, e),
        close(y * l * one, i * side * one, 4 * e * l * one + 2 * e * l * side),
        close(g * s, y * one, e * s),
        close(f, g * l, e),
        e * l * (12 * side + 10 * one) <= d * side,
    ensures
        close(f, i * one, d),
{
    assert(side <= 2 * s && s <= 2 * side);
    let p = f - g * l;
    let q = g * s - y * one;
    assert(f * s - g * s * l == p * s) by (nonlinear_arith)
        requires
            p == f - g * l,
    ;
    assert(close(p * s, 0, 2 * e * side)) by (nonlinear_arith)
        requires
            -e <= p <= e,
            0 <= s <= 2 * side,
            e >= 0,
    ;
    assert(2 * e * side <= 2 * e * l * side) by (nonlinear_arith)
        requires
            e >= 0,
            side > 0,
            l >= 1,
    ;
    assert(g * s * l - y * l * one == q * l) by (nonlinear_arith)
        requires
            q == g * s - y * one,
    ;
    assert(close(q * l, 0, 2 * e * l * side)) by (nonlinear_arith)
        requires
            -(e * s) <= q <= e * s,
            0 <= s <= 2 * side,
            e >= 0,
            l >= 1,
    ;
    assert(i * side * one - i * one * s == i * one * (side - s)) by (nonlinear_arith);
    assert(close(i * one * (side - s), 0, e * l * one)) by (nonlinear_arith)
        requires
            -e <= side - s <= e,
            0 <= i <= l,
            one > 0,
            e >= 0,
    ;
    let k = e * l * (6 * side + 5 * one);
    assert(k == 2 * e * l * side + 2 * e * l * side + (4 * e * l * one + 2 * e * l * side) + e * l
        * one) by (nonlinear_arith)
        requires
            k == e * l * (6 * side + 5 * one),
    ;
    assert(close(f * s, i * one * s, k));
    let gap = f - i * one;
    assert(f * s - i * one * s == gap * s) by (nonlinear_arith)
        requires
            gap == f - i * one,
    ;
    assert(2 * k <= d * side) by (nonlinear_arith)
        requires
            k == e * l * (6 * side + 5 * one),
            e * l * (12 * side + 10 * one) <= d * side,
    ;
    assert(-d <= gap <= d) by (nonlinear_arith)
        requires
            -k <= gap * s <= k,
            2 * k <= d * side,
            side <= 2 * s,
            side > 0,
    ;
}

/// The coordinate of a node is found again, up to rounding.
proof fn lemma_node_found<A: Arithmetic>(
    a: &A,
    lo: Scalar,
    hi: Scalar,
    i: u32,
    n: u32,
    d: int,
    bound: int,
    eps: int,
)
    requires
        rounds(a, bound, eps),
        counts(a),
        findable(lo, hi, n, d, bound, eps),
        i < n,
    ensures
        ({
            let f = grid_coordinate(a, point_on(a, lo, hi, i, n), lo, hi, n);
            f.finite() && close(f.units(), i * unit_count(), d)
        }),
{
    let one = unit_count();
    let e = eps;
    lemma_units_of_one();
    let l = (n - 1) as int;
    let count = single_of(a, l as u64);
    let at = single_of(a, i as u64);
    let side = hi.units() - lo.units();
    assert(one <= l * one && 0 <= i * one && i * one <= l * one) by (nonlinear_arith)
        requires
            0 <= i <= l,
            l >= 1,
            one > 0,
    ;
    assert(4 * (l * one) == 4 * l * one) by (nonlinear_arith);
    let r = over(a, at, count);
    assert(close((i * one) * one, 0, bound * (l * one))) by (nonlinear_arith)
        requires
            0 <= i * one <= l * one,
            one <= bound,
            one > 0,
    ;
    let s = minus(a, hi, lo);
    let m = times(a, r, s);
    let (ru, su) = (r.units(), s.units());
    // The first two facts of the way hold before the product is known.
    assert(close(ru * su, 0, bound * one)) by {
        lemma_part_of_way(one, e, l, i as int, ru);
        assert(close(ru * su, 0, bound * one)) by (nonlinear_arith)
            requires
                -(2 * one) <= ru <= 2 * one,
                0 <= su <= 2 * side,
                4 * side <= bound,
                one > 0,
        ;
    }
    let mu = m.units();
    lemma_way(one, e, l, i as int, side, ru, su, mu);
    // The way is no longer than the side by much.
    assert(-(4 * side) <= mu <= 4 * side) by {
        lemma_way_length(one, e, l, i as int, side, mu, ru, su);
    }
    let x = plus(a, lo, m);
    assert(close(x.units(), lo.units() + mu, e));
    let xc = x.clamped(lo, hi);
    lemma_units_order(x, lo);
    lemma_units_order(hi, x);
    let (xu, cu, low) = (x.units(), xc.units(), lo.units());
    assert(cu == if xu < low {
        low
    } else if hi.units() < xu {
        hi.units()
    } else {
        xu
    });
    let y = minus(a, xc, lo);
    let yu = y.units();
    assert(close(yu, cu - low, e));
    lemma_clamp_keeps(one, e, l, i as int, side, mu, xu - low, cu - low, yu);
    let g = over(a, y, s);
    assert(close(yu * one, 0, bound * su)) by (nonlinear_arith)
        requires
            -(2 * side) <= yu <= 2 * side,
            side <= 2 * su,
            4 * one <= bound,
            one > 0,
            side > 0,
    ;
    let gu = g.units();
    assert(close(gu * su, yu * one, e * su));
    assert(-(4 * one) <= gu <= 4 * one) by (nonlinear_arith)
        requires
            -(e * su) <= gu * su - yu * one <= e * su,
            -e <= yu <= side + e,
            side - e <= su,
            2 * e <= side,
            8 * e <= one,
            0 <= e,
            side > 0,
            one > 0,
    ;
    let f = times(a, g, count);
    assert(close(gu * (l * one), 0, bound * one)) by (nonlinear_arith)
        requires
            -(4 * one) <= gu <= 4 * one,
            4 * l * one <= bound,
            l >= 1,
            one > 0,
    ;
    let fu = f.units();
    assert(close(fu, gu * l, e)) by {
        assert(gu * (l * one) == (gu * l) * one) by (nonlinear_arith);
        assert(close(fu - gu * l, 0, e)) by (nonlinear_arith)
            requires
                -(e * one) <= fu * one - (gu * l) * one <= e * one,
                one > 0,
        ;
    }
    lemma_way_back(one, e, l, i as int, side, su, yu, gu, fu, d);
}

proof fn lemma_part_of_way(one: int, e: int, l: int, i: int, r: int)
    requires
        one > 0,
        0 <= e,
        8 * e <= one,
        0 <= i <= l,
        l >= 1,
        close(r * (l * one), (i * one) * one, e * (l * one)),
    ensures
        -(2 * one) <= r <= 2 * one,
{
    assert(r * (l * one) - (i * one) * one == (r * l - i * one) * one) by (nonlinear_arith);
    assert(e * (l * one) == (e * l) * one) by (nonlinear_arith);
    assert(close(r * l - i * one, 0, e * l)) by (nonlinear_arith)
        requires
            -((e * l) * one) <= (r * l - i * one) * one <= (e * l) * one,
            one > 0,
    ;
    assert(-(2 * one) <= r <= 2 * one) by (nonlinear_arith)
        requires
            -(e * l) <= r * l - i * one <= e * l,
            0 <= i <= l,
            l >= 1,
            8 * e <= one,
            0 <= e,
            one > 0,
    ;
}

proof fn lemma_way_length(
    one: int,
    e: int,
    l: int,
    i: int,
    side: int,
    m: int,
    r: int,
    s: int,
)
    requires
        one > 0,
        0 <= e,
        2 * e <= side,
        l >= 1,
        0 <= i <= l,
        8 * e <= one,
        close(r * l, i * one, e * l),
        close(s, side, e),
        close(m * one, r * s, e * one),
    ensures
        -(4 * side) <= m <= 4 * side,
{
    assert(8 * r <= 9 * one && -one <= 8 * r) by (nonlinear_arith)
        requires
            -(e * l) <= r * l - i * one <= e * l,
            0 <= i <= l,
            l >= 1,
            8 * e <= one,
            one > 0,
    ;
    assert(0 <= s && 2 * s <= 3 * side);
    assert(close(16 * (r * s), 0, 27 * (one * side))) by (nonlinear_arith)
        requires
            -one <= 8 * r <= 9 * one,
            0 <= s,
            2 * s <= 3 * side,
            one > 0,
    ;
    assert(-(4 * side) <= m <= 4 * side) by (nonlinear_arith)
        requires
            -(e * one) <= m * one - r * s <= e * one,
            -(27 * (one * side)) <= 16 * (r * s) <= 27 * (one * side),
            2 * e <= side,
            0 <= e,
            one > 0,
    ;
}

/// Moving a place into the box takes it no further from a node of the box.
proof fn lemma_clamp_keeps(
    one: int,
    e: int,
    l: int,
    i: int,
    side: int,
    m: int,
    x: int,
    c: int,
    y: int,
)
    requires
        one > 0,
        e >= 0,
        side > 0,
        2 * e <= side,
        0 <= i <= l,
        l >= 1,
        close(m * l * one, i * side * one, 2 * e * l * one + 2 * e * l * side),
        close(x, m, e),
        c == if x < 0 {
            0
        } else if side < x {
            side
        } else {
            x
        },
        close(y, c, e),
    ensures
        -e <= y <= side + e,
        -(2 * side) <= y <= 2 * side,
        close(y * l * one, i * side * one, 4 * e * l * one + 2 * e * l * side),
{
    let k = 2 * e * l * one + 2 * e * l * side;
    let goal = i * side * one;
    let ex = x - m;
    assert(x * l * one - m * l * one == ex * l * one) by (nonlinear_arith)
        requires
            ex == x - m,
    ;
    assert(close(ex * l * one, 0, e * l * one)) by (nonlinear_arith)
        requires
            -e <= ex <= e,
            l >= 1,
            one > 0,
    ;
    assert(close(x * l * one, goal, k + e * l * one));
    assert(0 <= goal <= side * l * one) by (nonlinear_arith)
        requires
            goal == i * side * one,
            0 <= i <= l,
            side > 0,
            one > 0,
    ;
    if x < 0 {
        assert(x * l * one <= 0) by (nonlinear_arith)
            requires
                x < 0,
                l >= 1,
                one > 0,
        ;
        assert(c * l * one == 0) by (nonlinear_arith)
            requires
                c == 0,
        ;
    } else if side < x {
        assert(side * l * one <= x * l * one) by (nonlinear_arith)
            requires
                side < x,
                l >= 1,
                one > 0,
        ;
    }
    assert(close(c * l * one, goal, k + e * l * one));
    let ey = y - c;
    assert(y * l * one - c * l * one == ey * l * one) by (nonlinear_arith)
        requires
            ey == y - c,
    ;
    assert(close(ey * l * one, 0, e * l * one)) by (nonlinear_arith)
        requires
            -e <= ey <= e,
            l >= 1,
            one > 0,
    ;
    assert(k + e * l * one + e * l * one == 4 * e * l * one + 2 * e * l * side) by (nonlinear_arith)
        requires
            k == 2 * e * l * one + 2 * e * l * side,
    ;
}

/// At a point of its grid the surface has the height that was stored there, up to rounding.
pub proof fn lemma_height_at_node<A: Arithmetic>(
    a: &A,
    p: Plane,
    idx: usize,
    d: int,
    most: int,
    bound: int,
    eps: int,
)
    requires
        rounds(a, bound, eps),
        counts(a),
        roomy(most, bound, eps),
        sound(p, most),
        findable(p.bbox_min.0, p.bbox_max.0, p.grid_x, d, bound, eps),
        findable(p.bbox_min.1, p.bbox_max.1, p.grid_y, d, bound, eps),
        idx < p.z.len(),
        0 <= d,
        2 * d <= unit_count(),
    ensures
        ({
            let (x, y) = grid_point(a, p.bbox_min, p.bbox_max, p.grid_x, p.grid_y, idx);
            close(
                height_at(a, p, x, y).units() * unit_count(),
                p.z[idx as int].units() * unit_count(),
                7 * eps * unit_count() + 16 * eps * most + 4 * (d + eps) * most,
            )
        }),
{
    let gx = p.grid_x as int;
    let gy = p.grid_y as int;
    let k = idx as int;
    vstd::arithmetic::div_mod::lemma_fundamental_div_mod(k, gx);
    vstd::arithmetic::div_mod::lemma_mod_bound(k, gx);
    let i = k % gx;
    let j = k / gx;
    assert(0 <= j < gy) by (nonlinear_arith)
        requires
            k == gx * j + i,
            0 <= i < gx,
            0 <= k < gx * gy,
            gx >= 2,
    ;
    assert(gx * j == j * gx) by (nonlinear_arith);
    let (x, y) = grid_point(a, p.bbox_min, p.bbox_max, p.grid_x, p.grid_y, idx);
    lemma_node_found(a, p.bbox_min.0, p.bbox_max.0, i as u32, p.grid_x, d, bound, eps);
    lemma_node_found(a, p.bbox_min.1, p.bbox_max.1, j as u32, p.grid_y, d, bound, eps);
    lemma_height_near_node(a, p, x, y, i as u32, j as u32, d, most, bound, eps);
}

} // verus!
