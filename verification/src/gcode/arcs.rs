//! Where the pieces of an arc lie.
use vstd::prelude::*;
use crate::arith::{
    double1, double2, double_of, minus, narrow, plus, times, wide_minus, wide_over, wide_plus,
    wide_times, wide_to_u64, widen, Arithmetic, Double, Op, Scalar,
};
use crate::gcode::meaning::{
    asks_for_move, code_in_force, last_number, lemma_goal, lemma_millimetres, lemma_words_say,
    length_of_number, length_slack, metric_code, moderate,
};
use crate::gcode::parser::{
    after_words, angle_at, arc_center_from_radius, arc_point, arc_points, arc_radius, arc_steps,
    arc_sweep, center_of, target_of, with_words, Parser,
};
use crate::gcode::words::Word;
use crate::geometry::{between, finite3, placed3, share};
use crate::grbl::state::Vec3;
use crate::measure::{
    as_far, circular, extent, gives, lemma_product, lemma_wide_worth_of_constants,
    lemma_wide_worth_order, lemma_wide_worth_signs, near, on_same_ray, precise, wide_finite,
    wide_gives, wide_precise, wide_worth, worth,
};

verus! {

/// Whether the arithmetic is good enough for arcs: a full turn and its 36th part are known, and
/// doubles are counted by their integer part.
pub open spec fn turns<A: Arithmetic>(
    a: &A,
    turn: real,
    bound: real,
    eps: real,
    wide: real,
    fine: real,
) -> bool {
    &&& precise(a, bound, eps)
    &&& wide_precise(a, bound, eps, wide, fine)
    &&& circular(a, turn, wide, fine)
    &&& wide_gives(Double { bits: 0x4019_21fb_5444_2d18 }, turn, fine)
    &&& wide_gives(Double { bits: 0x3fc6_5718_4ae7_4487 }, turn / 36 as real, fine)
    &&& 6 as real <= turn <= 7 as real
    &&& forall|x: Double|
        wide_finite(x) && 0 as real <= wide_worth(x) <= 0x100_0000 as real ==> {
            let n = #[trigger] wide_to_u64(a, x) as real;
            n <= wide_worth(x) < n + 1 as real
        }
    &&& 0 as real <= eps <= 1 as real / 100 as real
    &&& 0 as real <= fine <= 1 as real / 1000 as real
}

/// Whether coordinates up to `m` are not too large for the arithmetic.
pub open spec fn spacious(m: real, bound: real, wide: real) -> bool {
    &&& m >= 1 as real
    &&& 20 as real * m + 100 as real <= bound
    &&& 40 as real * (m * m) + 200 as real * m + 1000 as real <= wide
}

/// The offset of a point from another, along both axes.
proof fn lemma_offset<A: Arithmetic>(
    a: &A,
    p: Vec3,
    c: Vec3,
    m: real,
    turn: real,
    bound: real,
    eps: real,
    wide: real,
    fine: real,
)
    requires
        turns(a, turn, bound, eps, wide, fine),
        spacious(m, bound, wide),
        placed3(p, m) && placed3(c, m),
    ensures
        ({
            let x = widen(a, minus(a, p.x, c.x));
            let y = widen(a, minus(a, p.y, c.y));
            &&& wide_gives(x, worth(p.x) - worth(c.x), eps)
            &&& wide_gives(y, worth(p.y) - worth(c.y), eps)
            &&& extent(wide_worth(x)) <= 2 as real * m + 1 as real
            &&& extent(wide_worth(y)) <= 2 as real * m + 1 as real
        }),
{
    assert(m * m >= 0 as real) by (nonlinear_arith);
    assert(gives(minus(a, p.x, c.x), worth(p.x) - worth(c.x), eps));
    assert(gives(minus(a, p.y, c.y), worth(p.y) - worth(c.y), eps));
}

/// The direction of a point.
proof fn lemma_angle<A: Arithmetic>(
    a: &A,
    p: Vec3,
    c: Vec3,
    m: real,
    turn: real,
    bound: real,
    eps: real,
    wide: real,
    fine: real,
)
    requires
        turns(a, turn, bound, eps, wide, fine),
        spacious(m, bound, wide),
        placed3(p, m) && placed3(c, m),
    ensures
        wide_finite(angle_at(a, p, c)),
        2 as real * extent(wide_worth(angle_at(a, p, c))) <= turn + fine,
{
    lemma_offset(a, p, c, m, turn, bound, eps, wide, fine);
}

/// The angle that is swept leads from the direction of the start to that of the end, by a turn more
/// or less where the sense of rotation asks for it: a clockwise arc goes to smaller angles, the other
/// to larger ones, and neither by more than a turn.
pub proof fn lemma_sweep<A: Arithmetic>(
    a: &A,
    start: Vec3,
    end: Vec3,
    c: Vec3,
    clockwise: bool,
    m: real,
    turn: real,
    bound: real,
    eps: real,
    wide: real,
    fine: real,
) -> (k: int)
    requires
        turns(a, turn, bound, eps, wide, fine),
        spacious(m, bound, wide),
        placed3(start, m) && placed3(end, m) && placed3(c, m),
    ensures
        ({
            let sweep = arc_sweep(a, start, end, c, clockwise);
            let from = wide_worth(angle_at(a, start, c));
            let to = wide_worth(angle_at(a, end, c));
            &&& -1 <= k <= 1
            &&& wide_finite(sweep)
            &&& near(wide_worth(sweep), to + k as real * turn - from, 3 as real * fine)
            &&& clockwise ==> -turn - 4 as real * fine <= wide_worth(sweep) <= 4 as real * fine
            &&& !clockwise ==> -(4 as real * fine) <= wide_worth(sweep) <= turn + 4 as real * fine
        }),
{
    lemma_angle(a, start, c, m, turn, bound, eps, wide, fine);
    lemma_angle(a, end, c, m, turn, bound, eps, wide, fine);
    assert(m * m >= 0 as real) by (nonlinear_arith);
    let from = angle_at(a, start, c);
    let to = angle_at(a, end, c);
    let whole = Double { bits: 0x4019_21fb_5444_2d18 };
    lemma_wide_worth_order(from, to);
    lemma_wide_worth_order(to, from);
    let k: int = if clockwise && from.at_most(to) {
        -1
    } else if !clockwise && to.at_most(from) {
        1
    } else {
        0
    };
    assert(k as real * turn == if k == -1 {
        -turn
    } else if k == 1 {
        turn
    } else {
        0 as real
    }) by (nonlinear_arith)
        requires
            k == -1 || k == 0 || k == 1,
    ;
    let less = wide_minus(a, to, whole);
    let more = wide_plus(a, to, whole);
    assert(wide_gives(less, wide_worth(to) - wide_worth(whole), fine));
    assert(wide_gives(more, wide_worth(to) + wide_worth(whole), fine));
    let last = if k == -1 {
        less
    } else if k == 1 {
        more
    } else {
        to
    };
    assert(wide_gives(wide_minus(a, last, from), wide_worth(last) - wide_worth(from), fine));
    k
}

/// An arc has a piece for each 36th of a turn that it sweeps, and at least one.
pub proof fn lemma_arc_steps<A: Arithmetic>(
    a: &A,
    sweep: Double,
    turn: real,
    bound: real,
    eps: real,
    wide: real,
    fine: real,
)
    requires
        turns(a, turn, bound, eps, wide, fine),
        wide_finite(sweep),
        extent(wide_worth(sweep)) <= turn + 1 as real,
        bound >= 100 as real,
        wide >= 100 as real,
    ensures
        1 <= arc_steps(a, sweep) <= 60,
        ({
            let n = arc_steps(a, sweep) as real;
            let swept = extent(wide_worth(sweep));
            &&& 36 as real * swept <= (n + 1 as real + fine) * (turn + 36 as real * fine)
            &&& n > 1 as real ==> n * (turn - 36 as real * fine) <= 36 as real * swept + 36 as real
                * fine
        }),
{
    lemma_wide_worth_signs(sweep);
    lemma_wide_worth_of_constants();
    let size = sweep.absolute();
    let step = Double { bits: 0x3fc6_5718_4ae7_4487 };
    let one = Double { bits: 0x3ff0_0000_0000_0000 };
    let (w, s) = (wide_worth(size), wide_worth(step));
    assert(s >= 1 as real / 7 as real);
    assert(0 as real <= w / s <= 56 as real) by (nonlinear_arith)
        requires
            0 as real <= w <= 8 as real,
            s >= 1 as real / 7 as real,
    ;
    let q = wide_over(a, size, step);
    assert(wide_gives(q, w / s, fine));
    lemma_wide_worth_order(q, one);
    let g = q.greater(one);
    let v = wide_worth(g);
    assert(wide_finite(g) && v >= 1 as real && v >= wide_worth(q) && (v == 1 as real || v
        == wide_worth(q)));
    let n = wide_to_u64(a, g) as real;
    assert(n <= v < n + 1 as real);
    assert(n > 0 as real);
    assert(n >= 1 as real);
    assert((w / s) * s == w) by (nonlinear_arith)
        requires
            s >= 1 as real / 7 as real,
    ;
    assert(w <= (n + 1 as real + fine) * (turn / 36 as real + fine)) by (nonlinear_arith)
        requires
            (w / s) * s == w,
            w / s <= n + 1 as real + fine,
            0 as real <= s <= turn / 36 as real + fine,
            n >= 1 as real,
            fine >= 0 as real,
    ;
    assert(36 as real * ((n + 1 as real + fine) * (turn / 36 as real + fine)) == (n + 1 as real
        + fine) * (turn + 36 as real * fine)) by (nonlinear_arith);
    if n > 1 as real {
        assert(v > 1 as real);
        assert(n <= w / s + fine);
        assert(n * s <= w + fine * s) by (nonlinear_arith)
            requires
                n <= w / s + fine,
                (w / s) * s == w,
                s >= 0 as real,
        ;
        assert(fine * s <= fine) by (nonlinear_arith)
            requires
                0 as real <= s <= 1 as real,
                fine >= 0 as real,
        ;
        assert(n * (turn - 36 as real * fine) <= 36 as real * (n * s)) by (nonlinear_arith)
            requires
                turn / 36 as real - fine <= s,
                n >= 0 as real,
        ;
    }
}

/// How far an angle along an arc may be off.
pub open spec fn angle_slack(turn: real, fine: real) -> real {
    fine * (turn + 4 as real)
}

/// The angle after `i` of `n` pieces.
pub open spec fn arc_angle<A: Arithmetic>(
    a: &A,
    from: Double,
    sweep: Double,
    i: usize,
    n: usize,
) -> Double {
    wide_plus(
        a,
        from,
        wide_times(a, wide_over(a, double_of(a, i as u64), double_of(a, n as u64)), sweep),
    )
}

proof fn lemma_arc_angle<A: Arithmetic>(
    a: &A,
    from: Double,
    sweep: Double,
    i: usize,
    n: usize,
    turn: real,
    bound: real,
    eps: real,
    wide: real,
    fine: real,
)
    requires
        turns(a, turn, bound, eps, wide, fine),
        wide_finite(from) && 2 as real * extent(wide_worth(from)) <= turn + fine,
        wide_finite(sweep) && extent(wide_worth(sweep)) <= turn + 1 as real,
        0 <= i <= n <= 60,
        n >= 1,
        bound >= 100 as real,
        wide >= 100 as real,
    ensures
        ({
            let t = wide_over(a, double_of(a, i as u64), double_of(a, n as u64));
            &&& wide_gives(t, share(i as int, n as int), fine)
            &&& 0 as real <= share(i as int, n as int) <= 1 as real
            &&& wide_gives(
                arc_angle(a, from, sweep, i, n),
                wide_worth(from) + share(i as int, n as int) * wide_worth(sweep),
                angle_slack(turn, fine),
            )
            &&& extent(wide_worth(arc_angle(a, from, sweep, i, n))) <= 14 as real
        }),
{
    let (x, y) = (i as real, n as real);
    let part = share(i as int, n as int);
    assert(0 as real <= x / y <= 1 as real) by (nonlinear_arith)
        requires
            0 as real <= x <= y,
            y >= 1 as real,
    ;
    assert(wide_gives(double_of(a, i as u64), x, 0 as real));
    assert(wide_gives(double_of(a, n as u64), y, 0 as real));
    let t = wide_over(a, double_of(a, i as u64), double_of(a, n as u64));
    assert(wide_gives(t, part, fine));
    let s = wide_worth(sweep);
    lemma_product(wide_worth(t), s, part, s, fine, 0 as real);
    assert(fine * extent(s) <= fine * (turn + 1 as real) && 0 as real * extent(part) == 0 as real
        && fine * 0 as real == 0 as real) by (nonlinear_arith)
        requires
            0 as real <= extent(s) <= turn + 1 as real,
            fine >= 0 as real,
    ;
    assert(fine * (turn + 1 as real) <= 1 as real && angle_slack(turn, fine) == fine * (turn
        + 1 as real) + 3 as real * fine) by (nonlinear_arith)
        requires
            angle_slack(turn, fine) == fine * (turn + 4 as real),
            0 as real <= fine <= 1 as real / 1000 as real,
            turn <= 7 as real,
    ;
    assert(extent(part * s) <= turn + 1 as real) by (nonlinear_arith)
        requires
            extent(s) <= turn + 1 as real,
            0 as real <= part <= 1 as real,
    ;
    let swept = wide_times(a, t, sweep);
    assert(wide_gives(swept, wide_worth(t) * s, fine));
    assert(wide_gives(
        wide_plus(a, from, swept),
        wide_worth(from) + wide_worth(swept),
        fine,
    ));
}

/// The radius of an arc: the square of a distance.
proof fn lemma_radius<A: Arithmetic>(
    a: &A,
    p: Vec3,
    c: Vec3,
    m: real,
    turn: real,
    bound: real,
    eps: real,
    wide: real,
    fine: real,
)
    requires
        turns(a, turn, bound, eps, wide, fine),
        spacious(m, bound, wide),
        placed3(p, m) && placed3(c, m),
    ensures
        ({
            let r = wide_worth(arc_radius(a, p, c));
            let x = wide_worth(widen(a, minus(a, p.x, c.x)));
            let y = wide_worth(widen(a, minus(a, p.y, c.y)));
            &&& wide_finite(arc_radius(a, p, c))
            &&& 0 as real <= r <= 4 as real * m + 3 as real
            &&& near(r * r, x * x + y * y, 4 as real * fine)
        }),
{
    lemma_offset(a, p, c, m, turn, bound, eps, wide, fine);
    let dx = widen(a, minus(a, p.x, c.x));
    let dy = widen(a, minus(a, p.y, c.y));
    let (x, y) = (wide_worth(dx), wide_worth(dy));
    assert(m * m >= 0 as real) by (nonlinear_arith);
    assert(0 as real <= x * x <= 4 as real * (m * m) + 4 as real * m + 1 as real)
        by (nonlinear_arith)
        requires
            extent(x) <= 2 as real * m + 1 as real,
            m >= 1 as real,
    ;
    assert(0 as real <= y * y <= 4 as real * (m * m) + 4 as real * m + 1 as real)
        by (nonlinear_arith)
        requires
            extent(y) <= 2 as real * m + 1 as real,
            m >= 1 as real,
    ;
    let x2 = double1(a, Op::Square, dx);
    let y2 = double1(a, Op::Square, dy);
    let sum = wide_plus(a, x2, y2);
    assert(wide_gives(sum, wide_worth(x2) + wide_worth(y2), fine));
    let r = wide_worth(arc_radius(a, p, c));
    assert(r * r <= 8 as real * (m * m) + 8 as real * m + 3 as real);
    assert(r <= 4 as real * m + 3 as real) by (nonlinear_arith)
        requires
            r * r <= 8 as real * (m * m) + 8 as real * m + 3 as real,
            m >= 1 as real,
            r >= 0 as real,
    ;
}

/// A point of an arc: at its angle, as far from the centre as the radius.
proof fn lemma_arc_point<A: Arithmetic>(
    a: &A,
    start: Vec3,
    end: Vec3,
    c: Vec3,
    from: Double,
    sweep: Double,
    radius: Double,
    i: usize,
    n: usize,
    m: real,
    turn: real,
    bound: real,
    eps: real,
    wide: real,
    fine: real,
)
    requires
        turns(a, turn, bound, eps, wide, fine),
        spacious(m, bound, wide),
        placed3(start, m) && placed3(end, m) && placed3(c, m),
        wide_finite(from) && 2 as real * extent(wide_worth(from)) <= turn + fine,
        wide_finite(sweep) && extent(wide_worth(sweep)) <= turn + 1 as real,
        wide_finite(radius) && 0 as real <= wide_worth(radius) <= 4 as real * m + 3 as real,
        0 <= i <= n <= 60,
        n >= 1,
    ensures
        ({
            let e = arc_point(a, start, end, c, from, sweep, radius, i, n);
            let angle = arc_angle(a, from, sweep, i, n);
            let r = wide_worth(radius);
            let d = 2 as real * eps + fine;
            &&& gives(e.x, worth(c.x) + r * wide_worth(double1(a, Op::Cos, angle)), d)
            &&& gives(e.y, worth(c.y) + r * wide_worth(double1(a, Op::Sin, angle)), d)
            &&& gives(
                e.z,
                between(worth(start.z), worth(end.z), share(i as int, n as int)),
                eps * (4 as real * m + 8 as real) + fine * (2 as real * m + 1 as real),
            )
        }),
{
    assert(m * m >= 0 as real) by (nonlinear_arith);
    lemma_arc_angle(a, from, sweep, i, n, turn, bound, eps, wide, fine);
    let angle = arc_angle(a, from, sweep, i, n);
    let (co, si) = (double1(a, Op::Cos, angle), double1(a, Op::Sin, angle));
    let (x, y) = (wide_worth(co), wide_worth(si));
    let r = wide_worth(radius);
    assert(extent(r * x) <= 4 as real * m + 3 as real) by (nonlinear_arith)
        requires
            0 as real <= r <= 4 as real * m + 3 as real,
            -(1 as real) <= x <= 1 as real,
    ;
    assert(extent(r * y) <= 4 as real * m + 3 as real) by (nonlinear_arith)
        requires
            0 as real <= r <= 4 as real * m + 3 as real,
            -(1 as real) <= y <= 1 as real,
    ;
    let (rx, ry) = (wide_times(a, radius, co), wide_times(a, radius, si));
    assert(wide_gives(rx, r * x, fine) && wide_gives(ry, r * y, fine));
    assert(gives(narrow(a, rx), wide_worth(rx), eps));
    assert(gives(narrow(a, ry), wide_worth(ry), eps));
    let t = wide_over(a, double_of(a, i as u64), double_of(a, n as u64));
    let part = share(i as int, n as int);
    let d = minus(a, end.z, start.z);
    let full = worth(end.z) - worth(start.z);
    assert(gives(d, full, eps));
    assert(gives(narrow(a, t), part, eps + fine));
    let (w, v) = (worth(narrow(a, t)), worth(d));
    let e = eps + fine;
    lemma_product(w, v, part, full, e, eps);
    assert(e * extent(full) <= e * (2 as real * m)) by (nonlinear_arith)
        requires
            extent(full) <= 2 as real * m,
            e >= 0 as real,
    ;
    assert(eps * extent(part) <= eps && e * eps <= eps) by (nonlinear_arith)
        requires
            0 as real <= extent(part) <= 1 as real,
            0 as real <= e <= 1 as real,
            eps >= 0 as real,
    ;
    assert(e * (2 as real * m) <= 2 as real * m) by (nonlinear_arith)
        requires
            0 as real <= e <= 1 as real,
            m >= 1 as real,
    ;
    assert(extent(part * full) <= 2 as real * m) by (nonlinear_arith)
        requires
            extent(full) <= 2 as real * m,
            0 as real <= part <= 1 as real,
    ;
    assert(part * full == full * part) by (nonlinear_arith);
    let step = times(a, narrow(a, t), d);
    assert(gives(step, w * v, eps));
    assert(gives(plus(a, start.z, step), worth(start.z) + worth(step), eps));
    assert(e * (2 as real * m) + 4 as real * eps <= eps * (4 as real * m + 8 as real) + fine * (
    2 as real * m + 1 as real)) by (nonlinear_arith)
        requires
            e == eps + fine,
            eps >= 0 as real,
            fine >= 0 as real,
            m >= 1 as real,
    ;
}

/// The square of the distance of two points in the plane.
pub open spec fn apart(x: real, y: real, u: real, v: real) -> real {
    (x - u) * (x - u) + (y - v) * (y - v)
}

/// How far the square of the distance of a piece's end from the centre may be off.
pub open spec fn circle_slack(m: real, eps: real, fine: real) -> real {
    fine * ((4 as real * m + 3 as real) * (4 as real * m + 3 as real) + 16 as real * m + 18 as real)
        + eps * (40 as real * m + 30 as real)
}

/// The end of every piece is as far from the centre as the start of the arc.
pub proof fn lemma_points_on_circle<A: Arithmetic>(
    a: &A,
    start: Vec3,
    end: Vec3,
    c: Vec3,
    clockwise: bool,
    i: int,
    m: real,
    turn: real,
    bound: real,
    eps: real,
    wide: real,
    fine: real,
)
    requires
        turns(a, turn, bound, eps, wide, fine),
        spacious(m, bound, wide),
        placed3(start, m) && placed3(end, m) && placed3(c, m),
        0 <= i < arc_points(a, start, end, c, clockwise).len(),
    ensures
        ({
            let e = arc_points(a, start, end, c, clockwise)[i];
            &&& finite3(e)
            &&& extent(worth(e.x) - worth(c.x)) <= 4 as real * m + 4 as real
            &&& extent(worth(e.y) - worth(c.y)) <= 4 as real * m + 4 as real
            &&& near(
                apart(worth(e.x), worth(e.y), worth(c.x), worth(c.y)),
                apart(worth(start.x), worth(start.y), worth(c.x), worth(c.y)),
                circle_slack(m, eps, fine),
            )
        }),
{
    let _k = lemma_sweep(a, start, end, c, clockwise, m, turn, bound, eps, wide, fine);
    let sweep = arc_sweep(a, start, end, c, clockwise);
    assert(m * m >= 0 as real) by (nonlinear_arith);
    lemma_arc_steps(a, sweep, turn, bound, eps, wide, fine);
    lemma_angle(a, start, c, m, turn, bound, eps, wide, fine);
    lemma_radius(a, start, c, m, turn, bound, eps, wide, fine);
    lemma_offset(a, start, c, m, turn, bound, eps, wide, fine);
    let n = arc_steps(a, sweep);
    let from = angle_at(a, start, c);
    let radius = arc_radius(a, start, c);
    let j = (i + 1) as usize;
    lemma_arc_point(
        a,
        start,
        end,
        c,
        from,
        sweep,
        radius,
        j,
        n,
        m,
        turn,
        bound,
        eps,
        wide,
        fine,
    );
    lemma_arc_angle(a, from, sweep, j, n, turn, bound, eps, wide, fine);
    let e = arc_points(a, start, end, c, clockwise)[i];
    let angle = arc_angle(a, from, sweep, j, n);
    let (co, si) = (
        wide_worth(double1(a, Op::Cos, angle)),
        wide_worth(double1(a, Op::Sin, angle)),
    );
    let r = wide_worth(radius);
    let d = 2 as real * eps + fine;
    let (u, v) = (worth(e.x) - worth(c.x), worth(e.y) - worth(c.y));
    let (x, y) = (
        wide_worth(widen(a, minus(a, start.x, c.x))),
        wide_worth(widen(a, minus(a, start.y, c.y))),
    );
    let (p, q) = (worth(start.x) - worth(c.x), worth(start.y) - worth(c.y));
    lemma_round(r, co, si, u, v, x, y, p, q, d, m, eps, fine);
    assert(extent(r * co) <= 4 as real * m + 3 as real && extent(r * si) <= 4 as real * m
        + 3 as real) by (nonlinear_arith)
        requires
            0 as real <= r <= 4 as real * m + 3 as real,
            -(1 as real) <= co <= 1 as real,
            -(1 as real) <= si <= 1 as real,
    ;
}

/// The arithmetic of [`lemma_points_on_circle`].
proof fn lemma_round(
    r: real,
    co: real,
    si: real,
    u: real,
    v: real,
    x: real,
    y: real,
    p: real,
    q: real,
    d: real,
    m: real,
    eps: real,
    fine: real,
)
    requires
        0 as real <= r <= 4 as real * m + 3 as real,
        -(1 as real) <= co <= 1 as real,
        -(1 as real) <= si <= 1 as real,
        near(co * co + si * si, 1 as real, fine),
        near(u, r * co, d),
        near(v, r * si, d),
        d == 2 as real * eps + fine,
        near(x, p, eps) && near(y, q, eps),
        extent(p) <= 2 as real * m && extent(q) <= 2 as real * m,
        near(r * r, x * x + y * y, 4 as real * fine),
        0 as real <= eps <= 1 as real / 100 as real,
        0 as real <= fine <= 1 as real / 1000 as real,
        m >= 1 as real,
    ensures
        near(u * u + v * v, p * p + q * q, circle_slack(m, eps, fine)),
{
    let b = 4 as real * m + 3 as real;
    lemma_product(u, u, r * co, r * co, d, d);
    lemma_product(v, v, r * si, r * si, d, d);
    assert(d * extent(r * co) <= d * b) by (nonlinear_arith)
        requires
            0 as real <= r <= b,
            -(1 as real) <= co <= 1 as real,
            d >= 0 as real,
    ;
    assert(d * extent(r * si) <= d * b) by (nonlinear_arith)
        requires
            0 as real <= r <= b,
            -(1 as real) <= si <= 1 as real,
            d >= 0 as real,
    ;
    assert(d * d <= d) by (nonlinear_arith)
        requires
            0 as real <= d <= 1 as real,
    ;
    assert((r * co) * (r * co) + (r * si) * (r * si) == (r * r) * (co * co + si * si))
        by (nonlinear_arith);
    let one = co * co + si * si;
    assert(near((r * r) * one, r * r, (b * b) * fine)) by (nonlinear_arith)
        requires
            -fine <= one - 1 as real <= fine,
            0 as real <= r <= b,
            fine >= 0 as real,
    ;
    lemma_product(x, x, p, p, eps, eps);
    lemma_product(y, y, q, q, eps, eps);
    assert(eps * extent(p) <= eps * (2 as real * m) && eps * extent(q) <= eps * (2 as real * m)
        && eps * eps <= eps) by (nonlinear_arith)
        requires
            extent(p) <= 2 as real * m,
            extent(q) <= 2 as real * m,
            0 as real <= eps <= 1 as real,
    ;
    let near_radius = 4 as real * (d * b) + 2 as real * d + (b * b) * fine;
    assert(near(u * u + v * v, r * r, near_radius));
    let near_start = 4 as real * fine + 4 as real * (eps * (2 as real * m)) + 2 as real * eps;
    assert(near(r * r, p * p + q * q, near_start));
    assert(near_radius + near_start <= circle_slack(m, eps, fine)) by (nonlinear_arith)
        requires
            near_radius == 4 as real * (d * b) + 2 as real * d + (b * b) * fine,
            near_start == 4 as real * fine + 4 as real * (eps * (2 as real * m)) + 2 as real * eps,
            d == 2 as real * eps + fine,
            b == 4 as real * m + 3 as real,
            circle_slack(m, eps, fine) == fine * (b * b + 16 as real * m + 18 as real) + eps * (
            40 as real * m + 30 as real),
            eps >= 0 as real,
            fine >= 0 as real,
    ;
}

/// How far the last piece may end from the programmed end.
pub open spec fn end_slack(m: real, turn: real, d: real, eps: real, fine: real) -> real {
    3 as real * eps + 2 as real * fine + (4 as real * m + 3 as real) * (fine * (turn + 9 as real))
        + d + fine * (4 as real * m + 4 as real + d)
}

/// Where the programmed end is as far from the centre as the start, up to `d`, the last piece ends
/// there, and at the programmed height.
pub proof fn lemma_arc_ends<A: Arithmetic>(
    a: &A,
    start: Vec3,
    end: Vec3,
    c: Vec3,
    clockwise: bool,
    d: real,
    m: real,
    turn: real,
    bound: real,
    eps: real,
    wide: real,
    fine: real,
)
    requires
        turns(a, turn, bound, eps, wide, fine),
        spacious(m, bound, wide),
        placed3(start, m) && placed3(end, m) && placed3(c, m),
        d >= 0 as real,
        ({
            let r = wide_worth(arc_radius(a, start, c));
            near(
                apart(worth(start.x), worth(start.y), worth(c.x), worth(c.y)),
                apart(worth(end.x), worth(end.y), worth(c.x), worth(c.y)),
                d * r - 4 as real * fine - eps * (16 as real * m + 4 as real),
            )
        }),
    ensures
        ({
            let points = arc_points(a, start, end, c, clockwise);
            let e = points[points.len() - 1];
            &&& points.len() >= 1
            &&& gives(e.x, worth(end.x), end_slack(m, turn, d, eps, fine))
            &&& gives(e.y, worth(end.y), end_slack(m, turn, d, eps, fine))
            &&& gives(
                e.z,
                worth(end.z),
                eps * (4 as real * m + 8 as real) + fine * (2 as real * m + 1 as real),
            )
        }),
{
    let k = lemma_sweep(a, start, end, c, clockwise, m, turn, bound, eps, wide, fine);
    let sweep = arc_sweep(a, start, end, c, clockwise);
    assert(m * m >= 0 as real) by (nonlinear_arith);
    lemma_arc_steps(a, sweep, turn, bound, eps, wide, fine);
    lemma_angle(a, start, c, m, turn, bound, eps, wide, fine);
    lemma_angle(a, end, c, m, turn, bound, eps, wide, fine);
    lemma_radius(a, start, c, m, turn, bound, eps, wide, fine);
    lemma_offset(a, start, c, m, turn, bound, eps, wide, fine);
    lemma_offset(a, end, c, m, turn, bound, eps, wide, fine);
    let n = arc_steps(a, sweep);
    let from = angle_at(a, start, c);
    let to = angle_at(a, end, c);
    let radius = arc_radius(a, start, c);
    lemma_arc_point(
        a,
        start,
        end,
        c,
        from,
        sweep,
        radius,
        n,
        n,
        m,
        turn,
        bound,
        eps,
        wide,
        fine,
    );
    lemma_arc_angle(a, from, sweep, n, n, turn, bound, eps, wide, fine);
    let points = arc_points(a, start, end, c, clockwise);
    let e = points[points.len() - 1];
    assert(e == arc_point(a, start, end, c, from, sweep, radius, n, n));
    let angle = arc_angle(a, from, sweep, n, n);
    let whole = n as real;
    assert(share(n as int, n as int) == 1 as real) by {
        assert(whole / whole == 1 as real) by (nonlinear_arith)
            requires
                whole >= 1 as real,
        ;
    }
    let s = wide_worth(sweep);
    assert(1 as real * s == s) by (nonlinear_arith);
    let full = worth(end.z) - worth(start.z);
    assert(full * 1 as real == full) by (nonlinear_arith);
    let off = angle_slack(turn, fine) + 3 as real * fine;
    assert(off >= 0 as real && off + fine <= fine * (turn + 9 as real)) by (nonlinear_arith)
        requires
            off == fine * (turn + 4 as real) + 3 as real * fine,
            fine >= 0 as real,
            turn >= 0 as real,
    ;
    assert(on_same_ray(angle, to, turn, k, off));
    let (co, si) = (
        wide_worth(double1(a, Op::Cos, angle)),
        wide_worth(double1(a, Op::Sin, angle)),
    );
    let (ct, st) = (wide_worth(double1(a, Op::Cos, to)), wide_worth(double1(a, Op::Sin, to)));
    assert(near(co, ct, off + fine) && near(si, st, off + fine));
    let r = wide_worth(radius);
    let dy = widen(a, minus(a, end.y, c.y));
    let dx = widen(a, minus(a, end.x, c.x));
    let (x1, y1) = (wide_worth(dx), wide_worth(dy));
    let (x0, y0) = (
        wide_worth(widen(a, minus(a, start.x, c.x))),
        wide_worth(widen(a, minus(a, start.y, c.y))),
    );
    lemma_as_far(
        r,
        x0,
        y0,
        x1,
        y1,
        worth(start.x) - worth(c.x),
        worth(start.y) - worth(c.y),
        worth(end.x) - worth(c.x),
        worth(end.y) - worth(c.y),
        d,
        m,
        eps,
        fine,
    );
    assert(as_far(r, wide_worth(dx), wide_worth(dy), d));
    assert(to == double2(a, Op::Atan2, dy, dx));
    let g = d + fine * (1 as real + r + d);
    assert(near(r * ct, x1, g) && near(r * st, y1, g));
    let b = 4 as real * m + 3 as real;
    let h = fine * (turn + 9 as real);
    assert(near(r * co, r * ct, b * h)) by (nonlinear_arith)
        requires
            -h <= co - ct <= h,
            0 as real <= r <= b,
    ;
    assert(near(r * si, r * st, b * h)) by (nonlinear_arith)
        requires
            -h <= si - st <= h,
            0 as real <= r <= b,
    ;
    assert(fine * (1 as real + r + d) <= fine * (4 as real * m + 4 as real + d)) by (nonlinear_arith)
        requires
            fine >= 0 as real,
            r <= 4 as real * m + 3 as real,
    ;
}

proof fn lemma_as_far(
    r: real,
    x0: real,
    y0: real,
    x1: real,
    y1: real,
    p0: real,
    q0: real,
    p1: real,
    q1: real,
    d: real,
    m: real,
    eps: real,
    fine: real,
)
    requires
        r >= 0 as real,
        d >= 0 as real,
        near(r * r, x0 * x0 + y0 * y0, 4 as real * fine),
        near(x0, p0, eps) && near(y0, q0, eps) && near(x1, p1, eps) && near(y1, q1, eps),
        extent(p0) <= 2 as real * m && extent(q0) <= 2 as real * m,
        extent(p1) <= 2 as real * m && extent(q1) <= 2 as real * m,
        near(
            p0 * p0 + q0 * q0,
            p1 * p1 + q1 * q1,
            d * r - 4 as real * fine - eps * (16 as real * m + 4 as real),
        ),
        0 as real <= eps <= 1 as real / 100 as real,
        m >= 1 as real,
    ensures
        as_far(r, x1, y1, d),
{
    lemma_product(x0, x0, p0, p0, eps, eps);
    lemma_product(y0, y0, q0, q0, eps, eps);
    lemma_product(x1, x1, p1, p1, eps, eps);
    lemma_product(y1, y1, q1, q1, eps, eps);
    let e = eps * (2 as real * m);
    assert(eps * extent(p0) <= e && eps * extent(q0) <= e && eps * extent(p1) <= e && eps * extent(
        q1,
    ) <= e && eps * eps <= eps) by (nonlinear_arith)
        requires
            e == eps * (2 as real * m),
            extent(p0) <= 2 as real * m,
            extent(q0) <= 2 as real * m,
            extent(p1) <= 2 as real * m,
            extent(q1) <= 2 as real * m,
            0 as real <= eps <= 1 as real,
    ;
    assert(eps * (16 as real * m + 4 as real) == 8 as real * e + 4 as real * eps)
        by (nonlinear_arith)
        requires
            e == eps * (2 as real * m),
    ;
}

/// The distance from a centre that is known up to `e`.
proof fn lemma_shift(u: real, v: real, x: real, y: real, p: real, q: real, e: real, b: real)
    requires
        near(x, p, e) && near(y, q, e),
        extent(u - x) <= b && extent(v - y) <= b,
        0 as real <= e <= 1 as real,
    ensures
        near(apart(u, v, p, q), apart(u, v, x, y), e * (4 as real * b + 2 as real)),
{
    lemma_product(u - p, u - p, u - x, u - x, e, e);
    lemma_product(v - q, v - q, v - y, v - y, e, e);
    assert(e * extent(u - x) <= e * b && e * extent(v - y) <= e * b && e * e <= e)
        by (nonlinear_arith)
        requires
            extent(u - x) <= b,
            extent(v - y) <= b,
            0 as real <= e <= 1 as real,
    ;
    assert(e * (4 as real * b + 2 as real) == 4 as real * (e * b) + 2 as real * e)
        by (nonlinear_arith);
}

proof fn lemma_less_wide<A: Arithmetic>(a: &A, bound: real, eps: real, wide: real, fine: real)
    requires
        wide_precise(a, bound, eps, wide, fine),
        bound <= wide,
    ensures
        wide_precise(a, bound, eps, bound, fine),
{
}

/// How far the centre of an arc lies from its start, along one axis: what the word says, in
/// millimetres, and nothing without one.
pub open spec fn center_offset(v: Option<Double>, metric: bool) -> real {
    match v {
        Some(x) => length_of_number(wide_worth(x), metric),
        None => 0 as real,
    }
}

/// Whether the number is finite and its length no larger than `m`.
pub open spec fn short_offset(v: Option<Double>, metric: bool, m: real) -> bool {
    moderate(v, m) && extent(center_offset(v, metric)) <= m
}

/// How far the centre may be off.
pub open spec fn center_slack(m: real, eps: real, fine: real) -> real {
    length_slack(m, eps, fine) + eps
}

/// How far the square of a distance from the programmed centre may be off.
pub open spec fn arc_slack(m: real, eps: real, fine: real) -> real {
    circle_slack(3 as real * m, eps, fine) + 2 as real * (center_slack(m, eps, fine) * (48 as real
        * m + 18 as real))
}

/// What is asked of a line with an arc that is given by I and J, so that it can be followed.
pub open spec fn arc_line<A: Arithmetic>(
    a: &A,
    p: Parser,
    words: Seq<Word>,
    m: real,
    turn: real,
    bound: real,
    eps: real,
    wide: real,
    fine: real,
) -> bool {
    let metric = code_in_force(a, words, seq![20, 21], metric_code(p.metric)) == 21;
    let motion = code_in_force(a, words, seq![0, 1, 2, 3], p.motion as int);
    &&& turns(a, turn, bound, eps, wide, fine)
    &&& spacious(3 as real * m, bound, wide)
    &&& 60 as real * m + 8 as real <= bound <= wide
    &&& m >= 1 as real
    &&& placed3(p.pos, m)
    &&& asks_for_move(a, words)
    &&& motion == 2 || motion == 3
    &&& last_number(words, 'R') is None
    &&& short_offset(last_number(words, 'X'), metric, m)
    &&& short_offset(last_number(words, 'Y'), metric, m)
    &&& short_offset(last_number(words, 'Z'), metric, m)
    &&& short_offset(last_number(words, 'I'), metric, m)
    &&& short_offset(last_number(words, 'J'), metric, m)
    &&& center_slack(m, eps, fine) <= 1 as real
}

/// The centre of an arc that is given by I and J, and its goal.
proof fn lemma_arc_line<A: Arithmetic>(
    a: &A,
    p: Parser,
    words: Seq<Word>,
    line: usize,
    m: real,
    turn: real,
    bound: real,
    eps: real,
    wide: real,
    fine: real,
) -> (c: Vec3)
    requires
        arc_line(a, p, words, m, turn, bound, eps, wide, fine),
    ensures
        ({
            let metric = code_in_force(a, words, seq![20, 21], metric_code(p.metric)) == 21;
            let clockwise = code_in_force(a, words, seq![0, 1, 2, 3], p.motion as int) == 2;
            let (q, segments) = after_words(a, p, words, line);
            let points = arc_points(a, p.pos, q.pos, c, clockwise);
            let e = center_slack(m, eps, fine);
            &&& gives(
                c.x,
                worth(p.pos.x) + center_offset(last_number(words, 'I'), metric),
                e,
            )
            &&& gives(
                c.y,
                worth(p.pos.y) + center_offset(last_number(words, 'J'), metric),
                e,
            )
            &&& c.z == p.pos.z
            &&& placed3(c, 3 as real * m)
            &&& placed3(q.pos, 3 as real * m)
            &&& placed3(p.pos, 3 as real * m)
            &&& segments.len() == points.len()
            &&& forall|k: int|
                0 <= k < points.len() ==> (#[trigger] segments[k]).end == points[k]
        }),
{
    lemma_words_say(a, p, words);
    lemma_less_wide(a, bound, eps, wide, fine);
    let (q, axes) = with_words(a, p, words);
    lemma_goal(a, q, p.pos.x, axes.x, m, bound, eps, fine);
    lemma_goal(a, q, p.pos.y, axes.y, m, bound, eps, fine);
    lemma_goal(a, q, p.pos.z, axes.z, m, bound, eps, fine);
    let target = target_of(a, q, axes);
    let c = center_of(a, q, axes, target);
    if let Some(i) = axes.i {
        lemma_millimetres(a, q, i, m, bound, eps, fine);
    }
    if let Some(j) = axes.j {
        lemma_millimetres(a, q, j, m, bound, eps, fine);
    }
    c
}

/// An arc that is given by I and J lies on the circle around the point that is I and J away from its
/// start, in millimetres or in inches of 25.4 millimetres: the end of every piece is as far from that
/// point as the start is.
pub proof fn lemma_arc_around_offset<A: Arithmetic>(
    a: &A,
    p: Parser,
    words: Seq<Word>,
    line: usize,
    k: int,
    m: real,
    turn: real,
    bound: real,
    eps: real,
    wide: real,
    fine: real,
)
    requires
        arc_line(a, p, words, m, turn, bound, eps, wide, fine),
        0 <= k < after_words(a, p, words, line).1.len(),
    ensures
        ({
            let metric = code_in_force(a, words, seq![20, 21], metric_code(p.metric)) == 21;
            let i = center_offset(last_number(words, 'I'), metric);
            let j = center_offset(last_number(words, 'J'), metric);
            let end = after_words(a, p, words, line).1[k].end;
            near(
                apart(worth(end.x), worth(end.y), worth(p.pos.x) + i, worth(p.pos.y) + j),
                i * i + j * j,
                arc_slack(m, eps, fine),
            )
        }),
{
    let c = lemma_arc_line(a, p, words, line, m, turn, bound, eps, wide, fine);
    let (q, segments) = after_words(a, p, words, line);
    let clockwise = code_in_force(a, words, seq![0, 1, 2, 3], p.motion as int) == 2;
    let points = arc_points(a, p.pos, q.pos, c, clockwise);
    let metric = code_in_force(a, words, seq![20, 21], metric_code(p.metric)) == 21;
    let i = center_offset(last_number(words, 'I'), metric);
    let j = center_offset(last_number(words, 'J'), metric);
    assert(segments[k].end == points[k]);
    let big = 3 as real * m;
    lemma_points_on_circle(
        a,
        p.pos,
        q.pos,
        c,
        clockwise,
        k,
        big,
        turn,
        bound,
        eps,
        wide,
        fine,
    );
    let e = points[k];
    let slack = center_slack(m, eps, fine);
    let (cx, cy) = (worth(p.pos.x) + i, worth(p.pos.y) + j);
    let b = 4 as real * big + 4 as real;
    lemma_shift(worth(e.x), worth(e.y), worth(c.x), worth(c.y), cx, cy, slack, b);
    lemma_shift(
        worth(p.pos.x),
        worth(p.pos.y),
        worth(c.x),
        worth(c.y),
        cx,
        cy,
        slack,
        b,
    );
    assert((-i) * (-i) == i * i && (-j) * (-j) == j * j) by (nonlinear_arith);
    assert(apart(worth(p.pos.x), worth(p.pos.y), cx, cy) == i * i + j * j);
    assert(slack * (4 as real * b + 2 as real) == slack * (48 as real * m + 18 as real))
        by (nonlinear_arith)
        requires
            b == 4 as real * (3 as real * m) + 4 as real,
    ;
}

/// How far the end of an arc that is given by I and J may be off.
pub open spec fn goal_slack(m: real, turn: real, d: real, eps: real, fine: real) -> real {
    end_slack(3 as real * m, turn, d, eps, fine)
}

/// Where the goal of such an arc is as far from the centre as the start is, up to a square of `gap`,
/// the last piece ends at the goal, where the next line begins: off by no more than `d`, which is the
/// gap, and what the squares are off, in relation to a radius of at least `rho`.
pub proof fn lemma_arc_reaches_goal<A: Arithmetic>(
    a: &A,
    p: Parser,
    words: Seq<Word>,
    line: usize,
    gap: real,
    rho: real,
    d: real,
    m: real,
    turn: real,
    bound: real,
    eps: real,
    wide: real,
    fine: real,
)
    requires
        arc_line(a, p, words, m, turn, bound, eps, wide, fine),
        rho > 0 as real,
        gap >= 0 as real,
        d >= 0 as real,
        ({
            let metric = code_in_force(a, words, seq![20, 21], metric_code(p.metric)) == 21;
            let i = center_offset(last_number(words, 'I'), metric);
            let j = center_offset(last_number(words, 'J'), metric);
            let goal = after_words(a, p, words, line).0.pos;
            let off = arc_slack(m, eps, fine) + 4 as real * fine;
            &&& near(
                apart(worth(goal.x), worth(goal.y), worth(p.pos.x) + i, worth(p.pos.y) + j),
                i * i + j * j,
                gap,
            )
            &&& rho * rho + off <= i * i + j * j
            &&& gap + 2 as real * off <= d * rho
        }),
    ensures
        ({
            let (q, segments) = after_words(a, p, words, line);
            let last = segments[segments.len() - 1].end;
            let slack = goal_slack(m, turn, d, eps, fine);
            &&& segments.len() >= 1
            &&& near(worth(last.x), worth(q.pos.x), slack)
            &&& near(worth(last.y), worth(q.pos.y), slack)
            &&& near(
                worth(last.z),
                worth(q.pos.z),
                eps * (12 as real * m + 8 as real) + fine * (6 as real * m + 1 as real),
            )
        }),
{
    let c = lemma_arc_line(a, p, words, line, m, turn, bound, eps, wide, fine);
    let (q, segments) = after_words(a, p, words, line);
    let clockwise = code_in_force(a, words, seq![0, 1, 2, 3], p.motion as int) == 2;
    let points = arc_points(a, p.pos, q.pos, c, clockwise);
    let metric = code_in_force(a, words, seq![20, 21], metric_code(p.metric)) == 21;
    let i = center_offset(last_number(words, 'I'), metric);
    let j = center_offset(last_number(words, 'J'), metric);
    let big = 3 as real * m;
    let slack = center_slack(m, eps, fine);
    let (cx, cy) = (worth(p.pos.x) + i, worth(p.pos.y) + j);
    let b = 4 as real * big + 4 as real;
    lemma_shift(
        worth(q.pos.x),
        worth(q.pos.y),
        worth(c.x),
        worth(c.y),
        cx,
        cy,
        slack,
        b,
    );
    lemma_shift(
        worth(p.pos.x),
        worth(p.pos.y),
        worth(c.x),
        worth(c.y),
        cx,
        cy,
        slack,
        b,
    );
    assert((-i) * (-i) == i * i && (-j) * (-j) == j * j) by (nonlinear_arith);
    assert(apart(worth(p.pos.x), worth(p.pos.y), cx, cy) == i * i + j * j);
    let part = slack * (48 as real * m + 18 as real);
    assert(slack * (4 as real * b + 2 as real) == part) by (nonlinear_arith)
        requires
            b == 4 as real * (3 as real * m) + 4 as real,
            part == slack * (48 as real * m + 18 as real),
    ;
    lemma_radius(a, p.pos, c, big, turn, bound, eps, wide, fine);
    lemma_offset(a, p.pos, c, big, turn, bound, eps, wide, fine);
    let r = wide_worth(arc_radius(a, p.pos, c));
    let (x0, y0) = (
        wide_worth(widen(a, minus(a, p.pos.x, c.x))),
        wide_worth(widen(a, minus(a, p.pos.y, c.y))),
    );
    let (p0, q0) = (worth(p.pos.x) - worth(c.x), worth(p.pos.y) - worth(c.y));
    lemma_product(x0, x0, p0, p0, eps, eps);
    lemma_product(y0, y0, q0, q0, eps, eps);
    let e = eps * (2 as real * big);
    assert(eps * extent(p0) <= e && eps * extent(q0) <= e && eps * eps <= eps) by (nonlinear_arith)
        requires
            e == eps * (2 as real * big),
            extent(p0) <= 2 as real * big,
            extent(q0) <= 2 as real * big,
            0 as real <= eps <= 1 as real,
    ;
    let off = arc_slack(m, eps, fine) + 4 as real * fine;
    assert(circle_slack(big, eps, fine) >= 8 as real * e + 4 as real * eps + 8 as real * fine)
        by (nonlinear_arith)
        requires
            e == eps * (2 as real * big),
            circle_slack(big, eps, fine) == fine * ((4 as real * big + 3 as real) * (4 as real * big
                + 3 as real) + 16 as real * big + 18 as real) + eps * (40 as real * big
                + 30 as real),
            big >= 1 as real,
            eps >= 0 as real,
            fine >= 0 as real,
    ;
    assert(eps * (16 as real * big + 4 as real) == 8 as real * e + 4 as real * eps)
        by (nonlinear_arith)
        requires
            e == eps * (2 as real * big),
    ;
    assert(r * r >= rho * rho);
    assert(r >= rho) by (nonlinear_arith)
        requires
            r * r >= rho * rho,
            r >= 0 as real,
            rho > 0 as real,
    ;
    assert(d * r >= d * rho) by (nonlinear_arith)
        requires
            r >= rho,
            d >= 0 as real,
    ;
    lemma_arc_ends(
        a,
        p.pos,
        q.pos,
        c,
        clockwise,
        d,
        big,
        turn,
        bound,
        eps,
        wide,
        fine,
    );
    assert(eps * (4 as real * big + 8 as real) == eps * (12 as real * m + 8 as real) && fine * (
    2 as real * big + 1 as real) == fine * (6 as real * m + 1 as real)) by (nonlinear_arith)
        requires
            big == 3 as real * m,
    ;
    assert(segments[segments.len() - 1].end == points[points.len() - 1]);
}

/// Of the two arcs with a radius, a positive radius gives the shorter one and a negative radius the
/// longer one: with the sign changed the arc never becomes shorter.
pub proof fn lemma_positive_radius_is_shorter<A: Arithmetic>(
    a: &A,
    start: Vec3,
    end: Vec3,
    radius: Scalar,
    clockwise: bool,
)
    requires
        (Scalar { bits: 0 }).below(radius),
        ({
            let c = arc_center_from_radius(a, start, end, radius, clockwise);
            let d = arc_center_from_radius(a, start, end, radius.negated(), clockwise);
            !arc_sweep(a, start, end, c, clockwise).nan() && !arc_sweep(
                a,
                start,
                end,
                d,
                clockwise,
            ).nan()
        }),
    ensures
        ({
            let c = arc_center_from_radius(a, start, end, radius, clockwise);
            let d = arc_center_from_radius(a, start, end, radius.negated(), clockwise);
            arc_sweep(a, start, end, c, clockwise).absolute().at_most(
                arc_sweep(a, start, end, d, clockwise).absolute(),
            )
        }),
{
    assert(radius.negated().absolute() == radius.absolute());
    assert(radius.negated().below(Scalar { bits: 0 }));
    assert(!radius.below(Scalar { bits: 0 }));
}

} // verus!
