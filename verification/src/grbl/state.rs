//! What is known of the machine and of the job.
use std::sync::Arc;
use vstd::prelude::*;
use crate::arith::{minus, plus, single1, times, Arithmetic, Op, Scalar};
use crate::grbl::heightmap::HeightMap;
pub use crate::grbl::passes::{
    compute_pass_counts, normalize_pass_tolerance, pass_counts_are_current,
    DEFAULT_PASS_TOLERANCE_MM,
};

verus! {

/// What the controller reports to be doing.
#[derive(Clone, Copy, Debug, PartialEq, Eq, Structural)]
pub enum Status {
    Disconnected,
    Idle,
    Run,
    Hold,
    Alarm,
    Home,
    Check,
    Jog,
    Door,
    Sleep,
}

impl Default for Status {
    fn default() -> (status: Status)
        ensures
            status == Status::Disconnected,
    {
        Status::Disconnected
    }
}

/// A point or a displacement in millimetres.
#[derive(Clone, Copy, Debug, PartialEq)]
pub struct Vec3 {
    pub x: Scalar,
    pub y: Scalar,
    pub z: Scalar,
}

/// The point with all coordinates zero.
pub open spec fn origin() -> Vec3 {
    Vec3 { x: Scalar { bits: 0 }, y: Scalar { bits: 0 }, z: Scalar { bits: 0 } }
}

impl Default for Vec3 {
    fn default() -> (v: Vec3)
        ensures
            v == origin(),
    {
        Vec3 { x: Scalar { bits: 0 }, y: Scalar { bits: 0 }, z: Scalar { bits: 0 } }
    }
}

/// The distance of two points.
pub open spec fn spec_dist<A: Arithmetic>(a: &A, p: Vec3, q: Vec3) -> Scalar {
    let dx = minus(a, p.x, q.x);
    let dy = minus(a, p.y, q.y);
    let dz = minus(a, p.z, q.z);
    single1(a, Op::Sqrt, plus(a, plus(a, times(a, dx, dx), times(a, dy, dy)), times(a, dz, dz)))
}

/// The point at the part `t` of the way from `p` to `q`.
pub open spec fn spec_lerp<A: Arithmetic>(a: &A, p: Vec3, q: Vec3, t: Scalar) -> Vec3 {
    Vec3 {
        x: plus(a, p.x, times(a, minus(a, q.x, p.x), t)),
        y: plus(a, p.y, times(a, minus(a, q.y, p.y), t)),
        z: plus(a, p.z, times(a, minus(a, q.z, p.z), t)),
    }
}

impl Vec3 {
    pub fn dist<A: Arithmetic>(self, a: &A, other: Vec3) -> (d: Scalar)
        requires
            a.lawful(),
        ensures
            d == spec_dist(a, self, other),
    {
        let dx = minus(a, self.x, other.x);
        let dy = minus(a, self.y, other.y);
        let dz = minus(a, self.z, other.z);
        single1(
            a,
            Op::Sqrt,
            plus(a, plus(a, times(a, dx, dx), times(a, dy, dy)), times(a, dz, dz)),
        )
    }

    pub fn lerp<A: Arithmetic>(self, a: &A, other: Vec3, t: Scalar) -> (v: Vec3)
        requires
            a.lawful(),
        ensures
            v == spec_lerp(a, self, other, t),
    {
        Vec3 {
            x: plus(a, self.x, times(a, minus(a, other.x, self.x), t)),
            y: plus(a, self.y, times(a, minus(a, other.y, self.y), t)),
            z: plus(a, self.z, times(a, minus(a, other.z, self.z), t)),
        }
    }

    pub open spec fn equals(self, other: Vec3) -> bool {
        self.x.equals(other.x) && self.y.equals(other.y) && self.z.equals(other.z)
    }

    /// Whether all coordinates are equal numbers.
    pub fn same(self, other: Vec3) -> (yes: bool)
        ensures
            yes == self.equals(other),
    {
        self.x.same(other.x) && self.y.same(other.y) && self.z.same(other.z)
    }
}

/// How a job lies on the machine's table.
#[derive(Clone, Copy, Debug, PartialEq, Eq, Structural)]
pub enum Orientation {
    /// As it was written.
    R0,
    /// Turned by a quarter, counterclockwise.
    R90,
    /// Turned by a half.
    R180,
    /// With the axes exchanged.
    Transpose,
    /// With the first axis reversed.
    MirrorX,
}

impl Default for Orientation {
    fn default() -> (o: Orientation)
        ensures
            o == Orientation::R0,
    {
        Orientation::R0
    }
}

impl Orientation {
    /// Where the point of a job comes to lie.
    pub open spec fn placed(self, x: Scalar, y: Scalar) -> (Scalar, Scalar) {
        match self {
            Orientation::R0 => (x, y),
            Orientation::R90 => (y.negated(), x),
            Orientation::R180 => (x.negated(), y.negated()),
            Orientation::Transpose => (y, x),
            Orientation::MirrorX => (x.negated(), y),
        }
    }

    pub fn apply_xy(self, x: Scalar, y: Scalar) -> (p: (Scalar, Scalar))
        ensures
            p == self.placed(x, y),
    {
        match self {
            Orientation::R0 => (x, y),
            Orientation::R90 => (y.neg(), x),
            Orientation::R180 => (x.neg(), y.neg()),
            Orientation::Transpose => (y, x),
            Orientation::MirrorX => (x.neg(), y),
        }
    }

    pub fn is_identity(self) -> (yes: bool)
        ensures
            yes == (self == Orientation::R0),
            yes == forall|x: Scalar, y: Scalar| #[trigger] self.placed(x, y) == (x, y),
    {
        proof {
            let x = Scalar { bits: 1 };
            let y = Scalar { bits: 2 };
            assert(self.placed(x, y) == (x, y) ==> self == Orientation::R0);
        }
        self == Orientation::R0
    }
}

/// The controller, as far as it has reported.
#[derive(Clone, Debug)]
pub struct MachineState {
    pub port: String,
    pub baud: u32,
    pub connected: bool,
    pub status: Status,
    /// The position in machine coordinates.
    pub mpos: Vec3,
    /// The position in work coordinates.
    pub wpos: Vec3,
    /// The origin of the work coordinates, in machine coordinates.
    pub wco: Vec3,
    pub feed: Scalar,
    pub feed_ovr: i32,
    pub spindle: Scalar,
    pub spindle_ovr: i32,
    pub alarm_code: i32,
    pub soft_limits: bool,
    pub max_travel: Vec3,
    pub last_error: String,
    /// Whether the probe pin is closed.
    pub probe_active: bool,
}

impl Default for MachineState {
    fn default() -> (m: MachineState)
        ensures
            m.port@.len() == 0 && m.last_error@.len() == 0,
            m == (MachineState {
                port: m.port,
                baud: 0,
                connected: false,
                status: Status::Disconnected,
                mpos: origin(),
                wpos: origin(),
                wco: origin(),
                feed: Scalar { bits: 0 },
                feed_ovr: 0,
                spindle: Scalar { bits: 0 },
                spindle_ovr: 0,
                alarm_code: 0,
                soft_limits: false,
                max_travel: origin(),
                last_error: m.last_error,
                probe_active: false,
            }),
    {
        MachineState {
            port: String::new(),
            baud: 0,
            connected: false,
            status: Status::Disconnected,
            mpos: Vec3::default(),
            wpos: Vec3::default(),
            wco: Vec3::default(),
            feed: Scalar { bits: 0 },
            feed_ovr: 0,
            spindle: Scalar { bits: 0 },
            spindle_ovr: 0,
            alarm_code: 0,
            soft_limits: false,
            max_travel: Vec3::default(),
            last_error: String::new(),
            probe_active: false,
        }
    }
}

#[derive(Clone, Copy, Debug, PartialEq, Eq, Structural)]
pub enum JobStatus {
    Idle,
    Running,
    Paused,
    Complete,
}

impl Default for JobStatus {
    fn default() -> (status: JobStatus)
        ensures
            status == JobStatus::Idle,
    {
        JobStatus::Idle
    }
}

/// A straight piece of the toolpath.
#[derive(Clone, Copy, Debug, PartialEq)]
pub struct Segment {
    pub start: Vec3,
    pub end: Vec3,
    pub rapid: bool,
    /// The line of the job that it comes from, counted from zero.
    pub line: usize,
}

/// The loaded job and how far it is.
#[derive(Clone, Debug)]
pub struct JobState {
    pub lines: Arc<Vec<String>>,
    pub current_line: usize,
    pub status: JobStatus,
    pub segments: Arc<Vec<Segment>>,
    pub bounds_min: Vec3,
    pub bounds_max: Vec3,
    pub z_locked: bool,
    pub total_dist: Scalar,
    /// Which segments leave the machine's travel.
    pub seg_violations: Arc<Vec<bool>>,
    /// Which lines have such a segment.
    pub violated_lines: Arc<Vec<bool>>,
    /// How often each segment's path is run.
    pub seg_pass_counts: Arc<Vec<u16>>,
    /// The most passes of a line's segments.
    pub line_pass_counts: Arc<Vec<u16>>,
    pub pass_tolerance_mm: Scalar,
    pub heightmap: Option<Arc<HeightMap>>,
    pub orientation: Orientation,
    pub version: usize,
}

impl JobState {
    /// An attached height map can be read.
    pub open spec fn wf(&self) -> bool {
        self.heightmap matches Some(map) ==> map.wf()
    }
}

impl Default for JobState {
    fn default() -> (job: JobState)
        ensures
            job.lines@.len() == 0,
            job.segments@.len() == 0,
            job.seg_violations@.len() == 0 && job.violated_lines@.len() == 0,
            job.seg_pass_counts@.len() == 0 && job.line_pass_counts@.len() == 0,
            job == (JobState {
                lines: job.lines,
                current_line: 0,
                status: JobStatus::Idle,
                segments: job.segments,
                bounds_min: origin(),
                bounds_max: origin(),
                z_locked: false,
                total_dist: Scalar { bits: 0 },
                seg_violations: job.seg_violations,
                violated_lines: job.violated_lines,
                seg_pass_counts: job.seg_pass_counts,
                line_pass_counts: job.line_pass_counts,
                pass_tolerance_mm: Scalar { bits: 0 },
                heightmap: None,
                orientation: Orientation::R0,
                version: 0,
            }),
    {
        JobState {
            lines: Arc::new(Vec::new()),
            current_line: 0,
            status: JobStatus::Idle,
            segments: Arc::new(Vec::new()),
            bounds_min: Vec3::default(),
            bounds_max: Vec3::default(),
            z_locked: false,
            total_dist: Scalar { bits: 0 },
            seg_violations: Arc::new(Vec::new()),
            violated_lines: Arc::new(Vec::new()),
            seg_pass_counts: Arc::new(Vec::new()),
            line_pass_counts: Arc::new(Vec::new()),
            pass_tolerance_mm: Scalar { bits: 0 },
            heightmap: None,
            orientation: Orientation::R0,
            version: 0,
        }
    }
}

/// The box of the positions that the machine can reach, in work coordinates: its least and its
/// greatest corner. The home position is its corner with the least X and Y and the greatest Z.
pub open spec fn spec_soft_limit_bounds<A: Arithmetic>(a: &A, machine: &MachineState) -> Option<
    (Vec3, Vec3),
> {
    let mt = machine.max_travel;
    let wco = machine.wco;
    let zero = Scalar { bits: 0 };
    if !machine.connected || !machine.soft_limits || mt.x.at_most(zero) || mt.y.at_most(zero)
        || mt.z.at_most(zero) {
        None
    } else {
        let home = Vec3 { x: wco.x.negated(), y: wco.y.negated(), z: wco.z.negated() };
        let far = Vec3 {
            x: minus(a, mt.x, wco.x),
            y: minus(a, mt.y, wco.y),
            z: minus(a, mt.z.negated(), wco.z),
        };
        Some(
            (
                Vec3 { x: home.x.lesser(far.x), y: home.y.lesser(far.y), z: home.z.lesser(far.z) },
                Vec3 {
                    x: home.x.greater(far.x),
                    y: home.y.greater(far.y),
                    z: home.z.greater(far.z),
                },
            ),
        )
    }
}

/// The reachable box, where the controller is connected, limits its travel and has told how far
/// it goes.
#[verifier::when_used_as_spec(spec_soft_limit_bounds)]
pub fn soft_limit_bounds<A: Arithmetic>(a: &A, machine: &MachineState) -> (bounds: Option<
    (Vec3, Vec3),
>)
    requires
        a.lawful(),
    ensures
        bounds == spec_soft_limit_bounds(a, machine),
{
    let mt = machine.max_travel;
    let wco = machine.wco;
    let zero = Scalar { bits: 0 };
    if !machine.connected || !machine.soft_limits || mt.x.le(zero) || mt.y.le(zero) || mt.z.le(
        zero,
    ) {
        return None;
    }
    let home = Vec3 { x: wco.x.neg(), y: wco.y.neg(), z: wco.z.neg() };
    let far = Vec3 {
        x: minus(a, mt.x, wco.x),
        y: minus(a, mt.y, wco.y),
        z: minus(a, mt.z.neg(), wco.z),
    };
    Some(
        (
            Vec3 { x: home.x.min(far.x), y: home.y.min(far.y), z: home.z.min(far.z) },
            Vec3 { x: home.x.max(far.x), y: home.y.max(far.y), z: home.z.max(far.z) },
        ),
    )
}

/// Whether `v` lies in the box from `bmin` to `bmax`, its faces included.
pub open spec fn inside(v: Vec3, bmin: Vec3, bmax: Vec3) -> bool {
    &&& bmin.x.at_most(v.x) && v.x.at_most(bmax.x)
    &&& bmin.y.at_most(v.y) && v.y.at_most(bmax.y)
    &&& bmin.z.at_most(v.z) && v.z.at_most(bmax.z)
}

fn inside_bounds(v: Vec3, bmin: Vec3, bmax: Vec3) -> (yes: bool)
    ensures
        yes == inside(v, bmin, bmax),
{
    bmin.x.le(v.x) && v.x.le(bmax.x) && bmin.y.le(v.y) && v.y.le(bmax.y) && bmin.z.le(v.z)
        && v.z.le(bmax.z)
}

/// Whether a segment has an end outside the reachable box.
pub open spec fn violates<A: Arithmetic>(a: &A, segment: Segment, machine: &MachineState) -> bool {
    match soft_limit_bounds(a, machine) {
        Some((bmin, bmax)) => !inside(segment.start, bmin, bmax) || !inside(
            segment.end,
            bmin,
            bmax,
        ),
        None => false,
    }
}

/// Whether line `line` has a segment that leaves the reachable box.
pub open spec fn line_violates<A: Arithmetic>(
    a: &A,
    segments: Seq<Segment>,
    line: int,
    machine: &MachineState,
) -> bool {
    exists|k: int|
        0 <= k < segments.len() && (#[trigger] segments[k]).line == line && violates(
            a,
            segments[k],
            machine,
        )
}

/// The marks that a job should have: one for each segment and one for each line.
pub open spec fn marks_of<A: Arithmetic>(a: &A, job: JobState, machine: &MachineState) -> (
    Seq<bool>,
    Seq<bool>,
) {
    (
        Seq::new(job.segments@.len(), |k: int| violates(a, job.segments@[k], machine)),
        Seq::new(job.lines@.len(), |k: int| line_violates(a, job.segments@, k, machine)),
    )
}

/// The version that follows `v`.
pub open spec fn next_version(v: usize) -> usize {
    if v == usize::MAX {
        0
    } else {
        (v + 1) as usize
    }
}

pub fn bump(v: usize) -> (next: usize)
    ensures
        next == next_version(v),
{
    if v == usize::MAX {
        0
    } else {
        v + 1
    }
}

fn same_marks(v: &Vec<bool>, w: &Vec<bool>) -> (yes: bool)
    ensures
        yes == (v@ == w@),
{
    if v.len() != w.len() {
        return false;
    }
    for i in 0..v.len()
        invariant
            v.len() == w.len(),
            forall|k: int| 0 <= k < i ==> v@[k] == w@[k],
    {
        if v[i] != w[i] {
            return false;
        }
    }
    assert(v@ == w@);
    true
}

/// Marks the segments and lines that leave the reachable box, and tells whether a mark changed.
/// Of a job whose marks are right nothing changes.
pub fn recompute_soft_limit_violations<A: Arithmetic>(
    a: &A,
    job: &mut JobState,
    machine: &MachineState,
) -> (changed: bool)
    requires
        a.lawful(),
    ensures
        changed == ((old(job).seg_violations@, old(job).violated_lines@) != marks_of(
            a,
            *old(job),
            machine,
        )),
        (final(job).seg_violations@, final(job).violated_lines@) == marks_of(
            a,
            *final(job),
            machine,
        ),
        !changed ==> *final(job) == *old(job),
        changed ==> *final(job) == (JobState {
            seg_violations: final(job).seg_violations,
            violated_lines: final(job).violated_lines,
            version: next_version(old(job).version),
            ..*old(job)
        }),
{
    let mut seg_violations: Vec<bool> = vec![false; job.segments.len()];
    let mut violated_lines: Vec<bool> = vec![false; job.lines.len()];
    let ghost marks = marks_of(a, *job, machine);
    let ghost segments = job.segments@;
    let ghost count = job.lines@.len();
    if let Some((bmin, bmax)) = soft_limit_bounds(a, machine) {
        for idx in 0..job.segments.len()
            invariant
                job.segments@ == segments,
                soft_limit_bounds(a, machine) == Some((bmin, bmax)),
                seg_violations.len() == segments.len(),
                violated_lines.len() == count,
                forall|k: int|
                    0 <= k < idx ==> #[trigger] seg_violations@[k] == violates(
                        a,
                        segments[k],
                        machine,
                    ),
                forall|k: int|
                    0 <= k < count ==> #[trigger] violated_lines@[k] == line_violates(
                        a,
                        segments.take(idx as int),
                        k,
                        machine,
                    ),
        {
            let segment = job.segments[idx];
            let violated = !inside_bounds(segment.start, bmin, bmax) || !inside_bounds(
                segment.end,
                bmin,
                bmax,
            );
            seg_violations.set(idx, violated);
            let ghost before = violated_lines@;
            if violated && segment.line < violated_lines.len() {
                violated_lines.set(segment.line, true);
            }
            assert forall|k: int| 0 <= k < count implies #[trigger] violated_lines@[k]
                == line_violates(a, segments.take(idx + 1), k, machine) by {
                let done = segments.take(idx as int);
                let next = segments.take(idx + 1);
                assert(before[k] == line_violates(a, done, k, machine));
                assert(next[idx as int] == segment);
                if line_violates(a, done, k, machine) {
                    let w = choose|w: int|
                        0 <= w < done.len() && (#[trigger] done[w]).line == k && violates(
                            a,
                            done[w],
                            machine,
                        );
                    assert(next[w] == done[w]);
                }
                if line_violates(a, next, k, machine) {
                    let w = choose|w: int|
                        0 <= w < next.len() && (#[trigger] next[w]).line == k && violates(
                            a,
                            next[w],
                            machine,
                        );
                    assert(w < idx ==> done[w] == next[w]);
                }
            }
        }
        assert(segments.take(segments.len() as int) == segments);
    }
    assert(seg_violations@ == marks.0);
    assert(violated_lines@ == marks.1);
    if same_marks(&seg_violations, &job.seg_violations) && same_marks(
        &violated_lines,
        &job.violated_lines,
    ) {
        return false;
    }
    job.seg_violations = Arc::new(seg_violations);
    job.violated_lines = Arc::new(violated_lines);
    job.version = bump(job.version);
    true
}

} // verus!
