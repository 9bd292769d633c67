//! What the marks of a job mean on the machine.
use vstd::prelude::*;
use crate::arith::{minus, Arithmetic, Scalar};
use crate::geometry::{bounded3, finite3};
use crate::grbl::state::{line_violates, marks_of, soft_limit_bounds, JobState, MachineState, Vec3};
use crate::measure::{
    extent, gives, lemma_worth_negated, lemma_worth_of_constants, lemma_worth_order, near, precise,
    worth,
};

verus! {

/// Whether the machine is connected, limits its travel, and can travel along every axis.
pub open spec fn limited(machine: &MachineState) -> bool {
    &&& machine.connected
    &&& machine.soft_limits
    &&& worth(machine.max_travel.x) > 0 as real
    &&& worth(machine.max_travel.y) > 0 as real
    &&& worth(machine.max_travel.z) > 0 as real
}

/// Whether the tool can stand at `v`, which is in work coordinates, with `slack` to spare: in the
/// machine's own coordinates X and Y go up from zero and Z goes down from zero.
pub open spec fn attainable(machine: &MachineState, v: Vec3, slack: real) -> bool {
    let x = worth(v.x) + worth(machine.wco.x);
    let y = worth(v.y) + worth(machine.wco.y);
    let z = worth(v.z) + worth(machine.wco.z);
    &&& slack <= x <= worth(machine.max_travel.x) - slack
    &&& slack <= y <= worth(machine.max_travel.y) - slack
    &&& slack - worth(machine.max_travel.z) <= z <= -slack
}

/// One axis: `lo` and `hi` are the smaller and the larger of the two ends of the travel.
proof fn lemma_axis<A: Arithmetic>(a: &A, offset: Scalar, end: Scalar, bound: real, eps: real) -> (r:
    (Scalar, Scalar))
    requires
        precise(a, bound, eps),
        offset.finite(),
        end.finite(),
        extent(worth(end) - worth(offset)) <= bound,
        eps >= 0 as real,
    ensures
        ({
            let home = offset.negated();
            let far = minus(a, end, offset);
            &&& r == (home.lesser(far), home.greater(far))
            &&& r.0.finite() && r.1.finite()
            &&& worth(end) >= 0 as real ==> near(worth(r.0), -worth(offset), eps) && near(
                worth(r.1),
                worth(end) - worth(offset),
                eps,
            )
            &&& worth(end) <= 0 as real ==> near(worth(r.1), -worth(offset), eps) && near(
                worth(r.0),
                worth(end) - worth(offset),
                eps,
            )
        }),
{
    let home = offset.negated();
    let far = minus(a, end, offset);
    lemma_worth_negated(offset);
    assert(gives(far, worth(end) - worth(offset), eps));
    lemma_worth_order(home, far);
    lemma_worth_order(far, home);
    (home.lesser(far), home.greater(far))
}

/// The marks tell whether the machine can get to both ends of a segment, whatever kind of move it
/// is: a segment that is not marked has both ends where the tool can stand, and one whose ends are
/// there with a little to spare is not marked. The slack is the rounding of one difference.
pub proof fn lemma_marks_mean_reach<A: Arithmetic>(
    a: &A,
    job: JobState,
    machine: &MachineState,
    k: int,
    bound: real,
    eps: real,
)
    requires
        precise(a, bound, eps),
        eps >= 0 as real,
        limited(machine),
        finite3(machine.wco) && finite3(machine.max_travel),
        bounded3(machine.wco, bound / 2 as real) && bounded3(machine.max_travel, bound / 2 as real),
        0 <= k < job.segments@.len(),
        finite3(job.segments@[k].start) && finite3(job.segments@[k].end),
    ensures
        ({
            let s = job.segments@[k];
            let mark = marks_of(a, job, machine).0[k];
            &&& !mark ==> attainable(machine, s.start, -eps) && attainable(machine, s.end, -eps)
            &&& attainable(machine, s.start, eps) && attainable(machine, s.end, eps) ==> !mark
        }),
{
    let mt = machine.max_travel;
    let wco = machine.wco;
    let zero = Scalar { bits: 0 };
    let s = job.segments@[k];
    lemma_worth_of_constants();
    lemma_worth_order(mt.x, zero);
    lemma_worth_order(mt.y, zero);
    lemma_worth_order(mt.z, zero);
    lemma_worth_negated(mt.z);
    let bx = lemma_axis(a, wco.x, mt.x, bound, eps);
    let by = lemma_axis(a, wco.y, mt.y, bound, eps);
    let bz = lemma_axis(a, wco.z, mt.z.negated(), bound, eps);
    let lo = Vec3 { x: bx.0, y: by.0, z: bz.0 };
    let hi = Vec3 { x: bx.1, y: by.1, z: bz.1 };
    assert(soft_limit_bounds(a, machine) == Some((lo, hi)));
    lemma_box(lo, hi, s.start);
    lemma_box(lo, hi, s.end);
}

proof fn lemma_box(lo: Vec3, hi: Vec3, v: Vec3)
    requires
        finite3(lo) && finite3(hi) && finite3(v),
    ensures
        lo.x.at_most(v.x) <==> worth(lo.x) <= worth(v.x),
        v.x.at_most(hi.x) <==> worth(v.x) <= worth(hi.x),
        lo.y.at_most(v.y) <==> worth(lo.y) <= worth(v.y),
        v.y.at_most(hi.y) <==> worth(v.y) <= worth(hi.y),
        lo.z.at_most(v.z) <==> worth(lo.z) <= worth(v.z),
        v.z.at_most(hi.z) <==> worth(v.z) <= worth(hi.z),
{
    lemma_worth_order(lo.x, v.x);
    lemma_worth_order(v.x, hi.x);
    lemma_worth_order(lo.y, v.y);
    lemma_worth_order(v.y, hi.y);
    lemma_worth_order(lo.z, v.z);
    lemma_worth_order(v.z, hi.z);
}

/// Segments with the same ends have the same mark, in whatever jobs and of whatever kinds they are,
/// and so have segments whose ends are exchanged.
pub proof fn lemma_marks_by_ends<A: Arithmetic>(
    a: &A,
    job: JobState,
    other: JobState,
    machine: &MachineState,
    k: int,
    j: int,
)
    requires
        0 <= k < job.segments@.len(),
        0 <= j < other.segments@.len(),
        ({
            let (s, t) = (job.segments@[k], other.segments@[j]);
            s.start == t.start && s.end == t.end || s.start == t.end && s.end == t.start
        }),
    ensures
        marks_of(a, job, machine).0[k] == marks_of(a, other, machine).0[j],
{
}

/// A marked segment stays marked when one of its ends is moved: an end that is out of reach is
/// enough, and each end counts alike.
pub proof fn lemma_one_end_is_enough<A: Arithmetic>(
    a: &A,
    job: JobState,
    machine: &MachineState,
    k: int,
    i: int,
    j: int,
)
    requires
        0 <= k < job.segments@.len(),
        0 <= i < job.segments@.len(),
        0 <= j < job.segments@.len(),
        job.segments@[i].start == job.segments@[k].start,
        job.segments@[i].end == job.segments@[k].start,
        job.segments@[j].start == job.segments@[k].end,
        job.segments@[j].end == job.segments@[k].end,
    ensures
        ({
            let marks = marks_of(a, job, machine).0;
            marks[k] == (marks[i] || marks[j])
        }),
{
}

/// A machine that is not connected, does not limit its travel or has not told how far it travels
/// marks nothing.
pub proof fn lemma_no_limits_no_marks<A: Arithmetic>(a: &A, job: JobState, machine: &MachineState)
    requires
        finite3(machine.max_travel),
        !limited(machine),
    ensures
        forall|k: int| 0 <= k < job.segments@.len() ==> !#[trigger] marks_of(a, job, machine).0[k],
        forall|l: int| 0 <= l < job.lines@.len() ==> !#[trigger] marks_of(a, job, machine).1[l],
{
    let mt = machine.max_travel;
    let zero = Scalar { bits: 0 };
    lemma_worth_of_constants();
    lemma_worth_order(mt.x, zero);
    lemma_worth_order(mt.y, zero);
    lemma_worth_order(mt.z, zero);
}

/// A line is marked exactly if a segment of it is.
pub proof fn lemma_line_marks<A: Arithmetic>(
    a: &A,
    job: JobState,
    machine: &MachineState,
    line: int,
)
    requires
        0 <= line < job.lines@.len(),
    ensures
        marks_of(a, job, machine).0.len() == job.segments@.len(),
        marks_of(a, job, machine).1.len() == job.lines@.len(),
        marks_of(a, job, machine).1[line] <==> exists|k: int|
            0 <= k < job.segments@.len() && job.segments@[k].line == line && #[trigger] marks_of(
                a,
                job,
                machine,
            ).0[k],
{
    let marks = marks_of(a, job, machine);
    if marks.1[line] {
        let k = choose|k: int|
            0 <= k < job.segments@.len() && (#[trigger] job.segments@[k]).line == line
                && crate::grbl::state::violates(a, job.segments@[k], machine);
        assert(marks.0[k]);
    }
    if exists|k: int|
        0 <= k < job.segments@.len() && job.segments@[k].line == line && #[trigger] marks.0[k] {
        let k = choose|k: int|
            0 <= k < job.segments@.len() && job.segments@[k].line == line && #[trigger] marks.0[k];
        assert(job.segments@[k].line == line);
        assert(line_violates(a, job.segments@, line, machine));
    }
}

} // verus!
