//! Where a grid is probed, and what becomes of the points that are not.
use std::collections::HashSet;
use vstd::prelude::*;
use crate::arith::{minus, over, plus, single_of, times, Arithmetic, Scalar};
use crate::geometry::{between, lemma_part, share, way_slack};
use crate::grbl::heightmap::{spec_grid_point, spec_point_on};
use crate::measure::{
    extent, gives, lemma_product, lemma_worth_of_constants, near, precise, worth,
};
use crate::ui::probe::{filled, probed_count, probed_sum, skips, AutoPlan};

verus! {

/// A point of a side lies at its part of the way along it.
proof fn lemma_point_on<A: Arithmetic>(
    a: &A,
    lo: Scalar,
    hi: Scalar,
    i: u32,
    n: u32,
    m: real,
    tiny: real,
    bound: real,
    eps: real,
)
    requires
        precise(a, 2 as real, tiny),
        precise(a, bound, eps),
        2 <= n <= 0x100_0000,
        i < n,
        lo.finite() && hi.finite(),
        extent(worth(lo)) <= m && extent(worth(hi)) <= m,
        0 as real <= eps <= 1 as real,
        0 as real <= tiny <= 1 as real,
        m >= 0 as real,
        6 as real * m + 6 as real <= bound,
    ensures
        gives(
            spec_point_on(a, lo, hi, i, n),
            between(worth(lo), worth(hi), share(i as int, n - 1)),
            way_slack(m, tiny, eps),
        ),
{
    let last = (n - 1) as u64;
    let part = share(i as int, n - 1);
    lemma_part(a, i as u64, last, tiny);
    let t = over(a, single_of(a, i as u64), single_of(a, last));
    assert(gives(t, part, tiny));
    let d = minus(a, hi, lo);
    let full = worth(hi) - worth(lo);
    assert(gives(d, full, eps));
    lemma_product(worth(d), worth(t), full, part, eps, tiny);
    assert(eps * extent(part) <= eps) by (nonlinear_arith)
        requires
            0 as real <= extent(part) <= 1 as real,
            eps >= 0 as real,
    ;
    assert(tiny * extent(full) <= 2 as real * (tiny * m)) by (nonlinear_arith)
        requires
            extent(full) <= 2 as real * m,
            tiny >= 0 as real,
    ;
    assert(eps * tiny <= eps) by (nonlinear_arith)
        requires
            0 as real <= tiny <= 1 as real,
            eps >= 0 as real,
    ;
    let step = worth(t) * worth(d);
    assert(step == worth(d) * worth(t)) by (nonlinear_arith)
        requires
            step == worth(t) * worth(d),
    ;
    assert(extent(full * part) <= 2 as real * m) by (nonlinear_arith)
        requires
            extent(full) <= 2 as real * m,
            0 as real <= part <= 1 as real,
    ;
    assert(tiny * m <= m) by (nonlinear_arith)
        requires
            0 as real <= tiny <= 1 as real,
            m >= 0 as real,
    ;
    let w = times(a, t, d);
    assert(gives(w, step, eps));
    assert(gives(plus(a, lo, w), worth(lo) + worth(w), eps));
}

/// The points of a grid lie in rows, at equal steps from one corner of the area to the other: that in
/// column `ix` and row `iy` at the parts `ix` and `iy` of the ways along the two sides.
pub proof fn lemma_grid_place<A: Arithmetic>(
    a: &A,
    lo: (Scalar, Scalar),
    hi: (Scalar, Scalar),
    grid_x: u32,
    grid_y: u32,
    ix: int,
    iy: int,
    m: real,
    tiny: real,
    bound: real,
    eps: real,
)
    requires
        precise(a, 2 as real, tiny),
        precise(a, bound, eps),
        2 <= grid_x <= 0x100_0000,
        2 <= grid_y <= 0x100_0000,
        0 <= ix < grid_x,
        0 <= iy < grid_y,
        iy * grid_x + ix <= usize::MAX,
        lo.0.finite() && lo.1.finite() && hi.0.finite() && hi.1.finite(),
        extent(worth(lo.0)) <= m && extent(worth(lo.1)) <= m,
        extent(worth(hi.0)) <= m && extent(worth(hi.1)) <= m,
        0 as real <= eps <= 1 as real,
        0 as real <= tiny <= 1 as real,
        m >= 0 as real,
        6 as real * m + 6 as real <= bound,
    ensures
        ({
            let (x, y) = spec_grid_point(
                a,
                lo,
                hi,
                grid_x,
                grid_y,
                (iy * grid_x + ix) as usize,
            );
            let d = way_slack(m, tiny, eps);
            &&& gives(x, between(worth(lo.0), worth(hi.0), share(ix, grid_x - 1)), d)
            &&& gives(y, between(worth(lo.1), worth(hi.1), share(iy, grid_y - 1)), d)
        }),
{
    let n = grid_x as int;
    let k = iy * n + ix;
    assert(k >= 0) by (nonlinear_arith)
        requires
            k == iy * n + ix,
            iy >= 0,
            ix >= 0,
            n >= 0,
    ;
    vstd::arithmetic::div_mod::lemma_fundamental_div_mod_converse(k, n, iy, ix);
    lemma_point_on(a, lo.0, hi.0, ix as u32, grid_x, m, tiny, bound, eps);
    lemma_point_on(a, lo.1, hi.1, iy as u32, grid_y, m, tiny, bound, eps);
}

/// Where the search for the point of visit `k` begins: behind the one before it.
pub open spec fn search_from(visits: Seq<usize>, k: int) -> int {
    if k <= 0 {
        0
    } else {
        visits[k - 1] + 1
    }
}

/// Whether visit `k` is to the first point from there on that is not skipped.
pub open spec fn turn(plan: &AutoPlan, visits: Seq<usize>, k: int) -> bool {
    plan.is_next(search_from(visits, k), Some(visits[k]))
}

/// Points that are probed one after the other.
pub open spec fn in_turn(plan: &AutoPlan, visits: Seq<usize>) -> bool {
    forall|k: int| 0 <= k < visits.len() ==> #[trigger] turn(plan, visits, k)
}

/// A probing that goes from point to point until none is left has been at every point that is not
/// skipped, at no other, and at none twice.
pub proof fn lemma_probing_visits(plan: &AutoPlan, visits: Seq<usize>)
    requires
        in_turn(plan, visits),
        plan.is_next(search_from(visits, visits.len() as int), None),
    ensures
        forall|i: int|
            0 <= i < plan.total() && i <= usize::MAX ==> (#[trigger] plan.skipped@[i]
                <==> !visits.contains(i as usize)),
        forall|j: int, k: int| 0 <= j < k < visits.len() ==> visits[j] < visits[k],
{
    lemma_visits(plan, visits, visits.len() as int);
    assert forall|i: int| 0 <= i < plan.total() && i <= usize::MAX implies (
    #[trigger] plan.skipped@[i] <==> !visits.contains(i as usize)) by {
        if !plan.skipped@[i] {
            let k = choose|k: int| 0 <= k < visits.len() && visits[k] == i;
            assert(visits[k] == i as usize);
        }
        if visits.contains(i as usize) {
            let k = choose|k: int| 0 <= k < visits.len() && visits[k] == i as usize;
            assert(turn(plan, visits, k));
        }
    }
}

proof fn lemma_visits(plan: &AutoPlan, visits: Seq<usize>, n: int)
    requires
        in_turn(plan, visits),
        0 <= n <= visits.len(),
    ensures
        forall|i: int|
            0 <= i < search_from(visits, n) && !#[trigger] plan.skipped@[i] ==> exists|k: int|
                0 <= k < n && #[trigger] visits[k] == i,
        forall|j: int, k: int| 0 <= j < k < n ==> visits[j] < visits[k],
        forall|j: int| 0 <= j < n ==> visits[j] < search_from(visits, n),
    decreases n,
{
    if n > 0 {
        lemma_visits(plan, visits, n - 1);
        let from = search_from(visits, n - 1);
        assert(turn(plan, visits, n - 1));
        assert forall|i: int| 0 <= i < visits[n - 1] + 1 && !#[trigger] plan.skipped@[i] implies
            exists|k: int| 0 <= k < n && #[trigger] visits[k] == i by {
            if i < from {
                let k = choose|k: int| 0 <= k < n - 1 && #[trigger] visits[k] == i;
                assert(visits[k] == i);
            } else if i == visits[n - 1] {
                assert(visits[n - 1] == i);
            }
        }
    }
}

/// The sum of the heights that were found at points that are not skipped.
pub open spec fn height_sum(samples: Seq<Option<Scalar>>, skipped: HashSet<usize>, n: int) -> real
    decreases n,
{
    if n <= 0 {
        0 as real
    } else {
        height_sum(samples, skipped, n - 1) + (match samples[n - 1] {
            Some(z) => if skips(skipped, n - 1) {
                0 as real
            } else {
                worth(z)
            },
            None => 0 as real,
        })
    }
}

/// The indices of the points whose heights were found and that are not skipped.
pub open spec fn found(samples: Seq<Option<Scalar>>, skipped: HashSet<usize>, i: int) -> bool {
    samples[i] is Some && !skips(skipped, i)
}

proof fn lemma_sum_of_heights<A: Arithmetic>(
    a: &A,
    samples: Seq<Option<Scalar>>,
    skipped: HashSet<usize>,
    n: int,
    m: real,
    bound: real,
    eps: real,
)
    requires
        precise(a, bound, eps),
        0 <= n <= samples.len(),
        eps >= 0 as real,
        m >= 0 as real,
        forall|i: int|
            0 <= i < samples.len() && (#[trigger] samples[i]) is Some ==> samples[i]->0.finite()
                && extent(worth(samples[i]->0)) <= m,
        n as real * (m + eps) <= bound,
    ensures
        gives(
            probed_sum(a, samples, skipped, n),
            height_sum(samples, skipped, n),
            n as real * eps,
        ),
        extent(height_sum(samples, skipped, n)) <= n as real * m,
        probed_count(samples, skipped, n) <= n,
        n as real * eps >= 0 as real,
    decreases n,
{
    lemma_worth_of_constants();
    let r = n as real;
    assert(r * eps >= 0 as real) by (nonlinear_arith)
        requires
            r >= 0 as real,
            eps >= 0 as real,
    ;
    if n > 0 {
        let q = (n - 1) as real;
        assert(q == r - 1 as real);
        assert(r * (m + eps) == q * (m + eps) + m + eps) by (nonlinear_arith)
            requires
                q == r - 1 as real,
        ;
        assert(r * eps == q * eps + eps && r * m == q * m + m) by (nonlinear_arith)
            requires
                q == r - 1 as real,
        ;
        assert(q * (m + eps) == q * m + q * eps) by (nonlinear_arith);
        lemma_sum_of_heights(a, samples, skipped, n - 1, m, bound, eps);
        if let Some(z) = samples[n - 1] {
            if !skips(skipped, n - 1) {
                let rest = probed_sum(a, samples, skipped, n - 1);
                assert(gives(plus(a, rest, z), worth(rest) + worth(z), eps));
            }
        }
    } else {
        assert(0 as real * eps == 0 as real && 0 as real * m == 0 as real);
    }
}

/// A point without a height gets the mean of those that were found: as many times that mean as there
/// are of them make their sum, up to rounding.
pub proof fn lemma_filled_mean<A: Arithmetic>(
    a: &A,
    samples: Seq<Option<Scalar>>,
    skipped: HashSet<usize>,
    i: int,
    m: real,
    bound: real,
    eps: real,
)
    requires
        precise(a, bound, eps),
        samples.len() <= 0x100_0000,
        0 <= i < samples.len(),
        samples[i] is None,
        filled(a, samples, skipped) is Some,
        eps >= 0 as real,
        m >= 0 as real,
        forall|k: int|
            0 <= k < samples.len() && (#[trigger] samples[k]) is Some ==> samples[k]->0.finite()
                && extent(worth(samples[k]->0)) <= m,
        samples.len() as real * (m + eps) <= bound,
    ensures
        ({
            let n = samples.len() as int;
            let count = Set::new(|k: int| 0 <= k < n && found(samples, skipped, k)).len();
            let h = filled(a, samples, skipped)->0[i];
            &&& count >= 1
            &&& h.finite()
            &&& near(
                worth(h) * count as real,
                height_sum(samples, skipped, n),
                2 as real * (n as real * eps),
            )
        }),
{
    let n = samples.len() as int;
    let count = probed_count(samples, skipped, n);
    lemma_sum_of_heights(a, samples, skipped, n, m, bound, eps);
    lemma_counted(samples, skipped, n);
    let sum = probed_sum(a, samples, skipped, n);
    let k = single_of(a, count as u64);
    let (s, c) = (worth(sum), count as real);
    assert(worth(k) == c);
    let q = s / c;
    assert(q * c == s) by (nonlinear_arith)
        requires
            q == s / c,
            c >= 1 as real,
    ;
    let r = n as real;
    assert(r * (m + eps) == r * m + r * eps) by (nonlinear_arith);
    assert(extent(q) <= extent(s)) by (nonlinear_arith)
        requires
            q == s / c,
            c >= 1 as real,
    ;
    let h = over(a, sum, k);
    assert(gives(h, q, eps));
    let e = worth(h) - q;
    assert(-(c * eps) <= e * c <= c * eps) by (nonlinear_arith)
        requires
            -eps <= e <= eps,
            c >= 1 as real,
    ;
    assert(e * c == worth(h) * c - q * c) by (nonlinear_arith)
        requires
            e == worth(h) - q,
    ;
    assert(c * eps <= r * eps) by (nonlinear_arith)
        requires
            c <= r,
            eps >= 0 as real,
    ;
}

/// The count is that of the points.
proof fn lemma_counted(samples: Seq<Option<Scalar>>, skipped: HashSet<usize>, n: int)
    requires
        0 <= n <= samples.len(),
    ensures
        ({
            let s = Set::new(|k: int| 0 <= k < n && found(samples, skipped, k));
            s.finite() && s.len() == probed_count(samples, skipped, n)
        }),
    decreases n,
{
    let s = Set::new(|k: int| 0 <= k < n && found(samples, skipped, k));
    if n > 0 {
        let before = Set::new(|k: int| 0 <= k < n - 1 && found(samples, skipped, k));
        lemma_counted(samples, skipped, n - 1);
        if found(samples, skipped, n - 1) {
            assert(s =~= before.insert(n - 1));
        } else {
            assert(s =~= before);
        }
    } else {
        assert(s =~= Set::<int>::empty());
    }
}

} // verus!
