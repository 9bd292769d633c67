//! Probing: single points, and the grid that makes a height map.
use std::collections::HashSet;
use vstd::prelude::*;
use crate::arith::{fixed, minus, over, plus, show_fixed, single_of, Arithmetic, Scalar};
use crate::grbl::engine::{
    approach_line, approach_text, retract_line, retract_text, ProbeError,
};
use crate::grbl::heightmap::{grid_point, refusal, text_of, HeightMap};
use crate::grbl::state::{JobState, JobStatus, MachineState, Status};
use crate::lines::append;
use crate::text::{decimal, decimal_of, from_chars, string_views, to_chars};
use crate::ui::color::{rgba, Color, Ink};
use crate::ui::controls::{joggable, one_line_list, push_line};
use crate::ui::scene::ProbePreview;

verus! {

/// The height of travel at first, 1.
pub const FIRST_SAFE_Z: u32 = 0x3f80_0000;

/// The depth of a probing at first, 0.3.
pub const FIRST_DEPTH: u32 = 0x3e99_999a;

/// The feed of a probing at first, 50.
pub const FIRST_FEED: u32 = 0x4248_0000;

/// The step of a manual jog at first, 0.1.
pub const FIRST_STEP: u32 = 0x3dcc_cccd;

/// How near a step must be to the chosen one to be shown as chosen, 0.0001.
pub const STEP_NEAR: u32 = 0x38d1_b717;

/// How far from the origin the tool may be at the start, 0.1.
pub const NEAR: u32 = 0x3dcc_cccd;

#[derive(Clone, Copy, Debug, PartialEq, Eq, Structural)]
pub enum ProbeMode {
    Auto,
    Manual,
}

impl Default for ProbeMode {
    fn default() -> (m: ProbeMode)
        ensures
            m == ProbeMode::Auto,
    {
        ProbeMode::Auto
    }
}

#[derive(Clone, Copy, Debug, PartialEq, Eq, Structural)]
pub enum ProbePhase {
    Idle,
    Single,
    Grid,
}

impl Default for ProbePhase {
    fn default() -> (p: ProbePhase)
        ensures
            p == ProbePhase::Idle,
    {
        ProbePhase::Idle
    }
}

/// The state of the probing.
#[derive(Debug)]
pub struct ProbeState {
    pub grid_x: u32,
    pub grid_y: u32,
    /// The points that are not probed.
    pub skipped: HashSet<usize>,
    pub safe_z: Scalar,
    pub max_depth: Scalar,
    pub probe_feed: Scalar,
    pub mode: ProbeMode,
    pub phase: ProbePhase,
    pub bbox_min: (Scalar, Scalar),
    pub bbox_max: (Scalar, Scalar),
    pub manual_jog_step: Scalar,
    pub cancel: bool,
    /// The heights that were found, point by point.
    pub samples: Vec<Option<Scalar>>,
    pub current_index: usize,
    pub error: String,
    pub finished: bool,
    pub single_z: Option<Scalar>,
    pub single_msg: String,
}

/// Whether point `i` is skipped.
pub open spec fn skips(skipped: HashSet<usize>, i: int) -> bool {
    0 <= i <= usize::MAX && skipped@.contains(i as usize)
}

impl ProbeState {
    /// The state at first.
    pub open spec fn fresh(self) -> bool {
        &&& self.wf()
        &&& self.skipped@ == Set::<usize>::empty()
        &&& self.samples@.len() == 0 && self.error@.len() == 0 && self.single_msg@.len() == 0
        &&& self == (ProbeState {
            grid_x: 5,
            grid_y: 5,
            skipped: self.skipped,
            safe_z: Scalar { bits: FIRST_SAFE_Z },
            max_depth: Scalar { bits: FIRST_DEPTH },
            probe_feed: Scalar { bits: FIRST_FEED },
            mode: ProbeMode::Auto,
            phase: ProbePhase::Idle,
            bbox_min: (Scalar { bits: 0 }, Scalar { bits: 0 }),
            bbox_max: (Scalar { bits: 0 }, Scalar { bits: 0 }),
            manual_jog_step: Scalar { bits: FIRST_STEP },
            cancel: false,
            samples: self.samples,
            current_index: 0,
            error: self.error,
            finished: false,
            single_z: None,
            single_msg: self.single_msg,
        })
    }
}

impl Default for ProbeState {
    fn default() -> (s: ProbeState)
        ensures
            s.fresh(),
    {
        ProbeState {
            grid_x: 5,
            grid_y: 5,
            skipped: HashSet::new(),
            safe_z: Scalar { bits: FIRST_SAFE_Z },
            max_depth: Scalar { bits: FIRST_DEPTH },
            probe_feed: Scalar { bits: FIRST_FEED },
            mode: ProbeMode::Auto,
            phase: ProbePhase::Idle,
            bbox_min: (Scalar { bits: 0 }, Scalar { bits: 0 }),
            bbox_max: (Scalar { bits: 0 }, Scalar { bits: 0 }),
            manual_jog_step: Scalar { bits: FIRST_STEP },
            cancel: false,
            samples: Vec::new(),
            current_index: 0,
            error: String::new(),
            finished: false,
            single_z: None,
            single_msg: String::new(),
        }
    }
}

/// What the pin of the probe is shown as.
pub fn pin_indicator(mstate: &MachineState) -> (shown: (Ink, &'static str))
    ensures
        (shown.0, shown.1@) == if !mstate.connected {
            (Ink::Dim, "PROBE PIN: ---"@)
        } else if mstate.probe_active {
            (Ink::Green, "PROBE PIN: CONNECTED"@)
        } else {
            (Ink::Amber, "PROBE PIN: OPEN"@)
        },
{
    if !mstate.connected {
        (Ink::Dim, "PROBE PIN: ---")
    } else if mstate.probe_active {
        (Ink::Green, "PROBE PIN: CONNECTED")
    } else {
        (Ink::Amber, "PROBE PIN: OPEN")
    }
}

/// Whether the job covers an area.
pub open spec fn has_area(job: &JobState) -> bool {
    job.bounds_min.x.below(job.bounds_max.x) && job.bounds_min.y.below(job.bounds_max.y)
}

pub fn bbox_valid(jstate: &JobState) -> (yes: bool)
    ensures
        yes == has_area(jstate),
{
    jstate.bounds_min.x.lt(jstate.bounds_max.x) && jstate.bounds_min.y.lt(jstate.bounds_max.y)
}

/// Whether the tool is away from the origin of the work coordinates, so that the user is warned.
pub fn off_origin(mstate: &MachineState) -> (yes: bool)
    ensures
        yes == (mstate.connected && ((Scalar { bits: NEAR }).below(mstate.wpos.x.absolute()) || (
        Scalar { bits: NEAR }).below(mstate.wpos.y.absolute()) || (Scalar { bits: NEAR }).below(
            mstate.wpos.z.absolute(),
        ))),
{
    let near = Scalar { bits: NEAR };
    mstate.connected && (near.lt(mstate.wpos.x.abs()) || near.lt(mstate.wpos.y.abs()) || near.lt(
        mstate.wpos.z.abs(),
    ))
}

/// The sum of the probed heights among the first `n` points.
pub open spec fn probed_sum<A: Arithmetic>(
    a: &A,
    samples: Seq<Option<Scalar>>,
    skipped: HashSet<usize>,
    n: int,
) -> Scalar
    decreases n,
{
    if n <= 0 {
        Scalar { bits: 0 }
    } else {
        let rest = probed_sum(a, samples, skipped, n - 1);
        match samples[n - 1] {
            Some(z) if !skips(skipped, n - 1) => plus(a, rest, z),
            _ => rest,
        }
    }
}

/// How many of the first `n` points were probed.
pub open spec fn probed_count(samples: Seq<Option<Scalar>>, skipped: HashSet<usize>, n: int) -> nat
    decreases n,
{
    if n <= 0 {
        0
    } else if samples[n - 1] is Some && !skips(skipped, n - 1) {
        probed_count(samples, skipped, n - 1) + 1
    } else {
        probed_count(samples, skipped, n - 1)
    }
}

/// Whether every point that is not skipped was probed.
pub open spec fn complete(samples: Seq<Option<Scalar>>, skipped: HashSet<usize>) -> bool {
    forall|i: int| 0 <= i < samples.len() ==> (#[trigger] samples[i]) is Some || skips(skipped, i)
}

/// The heights of all points: a point without one gets the mean of the probed ones. There are none
/// before all points that are not skipped are probed, or if all are skipped.
pub open spec fn filled<A: Arithmetic>(
    a: &A,
    samples: Seq<Option<Scalar>>,
    skipped: HashSet<usize>,
) -> Option<Seq<Scalar>> {
    let n = samples.len() as int;
    if probed_count(samples, skipped, n) == 0 || !complete(samples, skipped) {
        None
    } else {
        let mean = over(
            a,
            probed_sum(a, samples, skipped, n),
            single_of(a, probed_count(samples, skipped, n) as u64),
        );
        Some(
            Seq::new(
                samples.len(),
                |i: int|
                    match samples[i] {
                        Some(z) => z,
                        None => mean,
                    },
            ),
        )
    }
}

proof fn lemma_probed_count(samples: Seq<Option<Scalar>>, skipped: HashSet<usize>, n: int)
    ensures
        probed_count(samples, skipped, n) <= if n > 0 {
            n
        } else {
            0
        },
    decreases n,
{
    if n > 0 {
        lemma_probed_count(samples, skipped, n - 1);
    }
}

pub fn fill_skipped<A: Arithmetic>(
    a: &A,
    samples: &Vec<Option<Scalar>>,
    skipped: &HashSet<usize>,
) -> (out: Option<Vec<Scalar>>)
    requires
        a.lawful(),
    ensures
        match out {
            Some(z) => filled(a, samples@, *skipped) == Some(z@),
            None => filled(a, samples@, *skipped) is None,
        },
{
    let mut sum = Scalar { bits: 0 };
    let mut count: usize = 0;
    let mut all = true;
    for i in 0..samples.len()
        invariant
            a.lawful(),
            sum == probed_sum(a, samples@, *skipped, i as int),
            count == probed_count(samples@, *skipped, i as int),
            count <= i,
            all == forall|k: int|
                0 <= k < i ==> (#[trigger] samples@[k]) is Some || skips(*skipped, k),
    {
        let skip = skipped.contains(&i);
        match samples[i] {
            Some(z) => {
                if !skip {
                    sum = plus(a, sum, z);
                    count = count + 1;
                }
            },
            None => {
                if !skip {
                    assert(!(samples@[i as int] is Some || skips(*skipped, i as int)));
                    all = false;
                }
            },
        }
    }
    if count == 0 || !all {
        return None;
    }
    let mean = over(a, sum, single_of(a, count as u64));
    let mut out: Vec<Scalar> = Vec::new();
    let ghost goal = filled(a, samples@, *skipped)->0;
    for i in 0..samples.len()
        invariant
            goal.len() == samples@.len(),
            forall|k: int|
                0 <= k < goal.len() ==> #[trigger] goal[k] == match samples@[k] {
                    Some(z) => z,
                    None => mean,
                },
            out@ == goal.take(i as int),
    {
        let z = match samples[i] {
            Some(z) => z,
            None => mean,
        };
        out.push(z);
        assert(goal.take(i + 1) == goal.take(i as int).push(goal[i as int]));
    }
    assert(goal.take(samples.len() as int) == goal);
    Some(out)
}

/// A filled map keeps every height that was found.
pub proof fn lemma_filled_keeps_samples<A: Arithmetic>(
    a: &A,
    samples: Seq<Option<Scalar>>,
    skipped: HashSet<usize>,
    i: int,
)
    requires
        0 <= i < samples.len(),
        filled(a, samples, skipped) is Some,
        samples[i] is Some,
    ensures
        filled(a, samples, skipped)->0.len() == samples.len(),
        filled(a, samples, skipped)->0[i] == samples[i]->0,
{
}

/// What an automatic probing does next.
pub enum AutoStep {
    /// It was cancelled.
    Cancelled,
    /// The point with this number is probed, at this place.
    Probe(usize, Scalar, Scalar),
    /// All points are done.
    Done,
}

/// What came of a probing.
pub enum Completion {
    /// Nothing yet, or nothing to keep.
    Nothing,
    Built(HeightMap),
    /// No map can be made, for this reason.
    Refused(String),
}

/// The command that makes the present height `z` of the work coordinates.
pub open spec fn set_height_line<A: Arithmetic>(a: &A, z: Scalar) -> Seq<char> {
    "G10 L20 P1 Z"@ + fixed(a, z, 4)
}

fn set_height_text<A: Arithmetic>(a: &A, z: Scalar) -> (line: String)
    requires
        a.lawful(),
    ensures
        line@ == set_height_line(a, z),
{
    let mut line = to_chars("G10 L20 P1 Z");
    append(&mut line, to_chars(show_fixed(a, z, 4).as_str()).as_slice());
    from_chars(line.as_slice())
}

fn height_text<A: Arithmetic>(a: &A, label: &str, z: Scalar, tail: &str) -> (text: String)
    requires
        a.lawful(),
    ensures
        text@ == label@ + fixed(a, z, 3) + tail@,
{
    let mut text = to_chars(label);
    append(&mut text, to_chars(show_fixed(a, z, 3).as_str()).as_slice());
    append(&mut text, to_chars(tail).as_slice());
    from_chars(text.as_slice())
}

/// How a point of the grid is drawn: whether with a cross, and in which colour.
pub struct GridCell {
    pub crossed: bool,
    pub fill: Color,
}

/// What an automatic probing goes by from its beginning to its end, whatever is changed meanwhile.
pub struct AutoPlan {
    pub grid_x: u32,
    pub grid_y: u32,
    pub bbox_min: (Scalar, Scalar),
    pub bbox_max: (Scalar, Scalar),
    pub safe_z: Scalar,
    pub max_depth: Scalar,
    pub feed: Scalar,
    /// Which points are not probed.
    pub skipped: Vec<bool>,
}

impl AutoPlan {
    /// It is known of every point whether it is skipped, and the points can be counted.
    pub open spec fn wf(&self) -> bool {
        &&& self.grid_x >= 1 && self.grid_y >= 1 && self.grid_x * self.grid_y <= u32::MAX
        &&& self.skipped@.len() == self.total()
    }

    /// The number of points.
    pub open spec fn total(&self) -> int {
        self.grid_x * self.grid_y
    }

    /// Where a point lies.
    pub open spec fn point<A: Arithmetic>(&self, a: &A, i: int) -> (Scalar, Scalar) {
        grid_point(a, self.bbox_min, self.bbox_max, self.grid_x, self.grid_y, i as usize)
    }

    /// The first point from `from` on that is not skipped.
    pub open spec fn is_next(&self, from: int, next: Option<usize>) -> bool {
        match next {
            Some(i) => from <= i < self.total() && !self.skipped@[i as int] && forall|k: int|
                from <= k < i ==> #[trigger] self.skipped@[k],
            None => forall|k: int| from <= k < self.total() ==> #[trigger] self.skipped@[k],
        }
    }

    fn next_unskipped(&self, from: usize) -> (next: Option<usize>)
        requires
            self.wf(),
        ensures
            self.is_next(from as int, next),
    {
        let mut i: usize = from;
        while i < self.skipped.len()
            invariant
                self.wf(),
                from <= i,
                forall|k: int| from <= k < i ==> #[trigger] self.skipped@[k],
            decreases self.skipped.len() - i,
        {
            if !self.skipped[i] {
                return Some(i);
            }
            i = i + 1;
        }
        None
    }
}

impl ProbeState {
    /// The points can be counted.
    pub open spec fn wf(&self) -> bool {
        self.grid_x >= 1 && self.grid_y >= 1 && self.grid_x * self.grid_y <= u32::MAX
    }

    /// The number of points.
    pub open spec fn total(&self) -> int {
        self.grid_x * self.grid_y
    }

    /// Where a point lies.
    pub open spec fn point<A: Arithmetic>(&self, a: &A, i: int) -> (Scalar, Scalar) {
        grid_point(a, self.bbox_min, self.bbox_max, self.grid_x, self.grid_y, i as usize)
    }

    /// The first point from `from` on that is not skipped.
    pub open spec fn is_next(&self, from: int, next: Option<usize>) -> bool {
        match next {
            Some(i) => from <= i < self.total() && !skips(self.skipped, i as int)
                && forall|k: int| from <= k < i ==> #[trigger] skips(self.skipped, k),
            None => forall|k: int|
                from <= k < self.total() ==> #[trigger] skips(self.skipped, k),
        }
    }

    pub fn grid_total(&self) -> (n: usize)
        requires
            self.wf(),
        ensures
            n == self.total(),
    {
        assert(0 <= self.grid_x * self.grid_y) by (nonlinear_arith)
            requires
                self.grid_x >= 0,
                self.grid_y >= 0,
        ;
        (self.grid_x * self.grid_y) as usize
    }

    pub fn next_unskipped(&self, from: usize) -> (next: Option<usize>)
        requires
            self.wf(),
        ensures
            self.is_next(from as int, next),
    {
        let total = self.grid_total();
        let mut i: usize = from;
        while i < total
            invariant
                total == self.total(),
                from <= i,
                forall|k: int| from <= k < i ==> #[trigger] skips(self.skipped, k),
            decreases total - i,
        {
            if !self.skipped.contains(&i) {
                return Some(i);
            }
            i = i + 1;
        }
        None
    }

    /// The samples, the point that is being probed, and which points are skipped.
    pub fn samples_snapshot(&self) -> (out: (Vec<Option<Scalar>>, Option<usize>, Vec<bool>))
        requires
            self.wf(),
        ensures
            out.0@ == self.samples@,
            out.1 == if self.phase == ProbePhase::Grid {
                Some(self.current_index)
            } else {
                None
            },
            out.2@ == Seq::new(self.total() as nat, |i: int| skips(self.skipped, i)),
    {
        let mut samples: Vec<Option<Scalar>> = Vec::new();
        for i in 0..self.samples.len()
            invariant
                samples@ == self.samples@.take(i as int),
        {
            samples.push(self.samples[i]);
        }
        let total = self.grid_total();
        let mut skipped: Vec<bool> = Vec::new();
        for i in 0..total
            invariant
                total == self.total(),
                skipped@ == Seq::new(i as nat, |k: int| skips(self.skipped, k)),
        {
            skipped.push(self.skipped.contains(&i));
            assert(skipped@ == Seq::new((i + 1) as nat, |k: int| skips(self.skipped, k)));
        }
        let current = if self.phase == ProbePhase::Grid {
            Some(self.current_index)
        } else {
            None
        };
        (samples, current, skipped)
    }

    /// Takes a new size of the grid. The skipped points are forgotten.
    pub fn set_grid(&mut self, grid_x: u32, grid_y: u32)
        ensures
            final(self).skipped@ == Set::<usize>::empty(),
            *final(self) == (ProbeState {
                grid_x,
                grid_y,
                skipped: final(self).skipped,
                ..*old(self)
            }),
    {
        self.grid_x = grid_x;
        self.grid_y = grid_y;
        self.skipped.clear();
    }

    /// Takes a click on a point of the grid: it is skipped, or no longer. While a probing is under
    /// way nothing changes.
    pub fn toggle_skip(&mut self, idx: usize)
        ensures
            *final(self) == (ProbeState { skipped: final(self).skipped, ..*old(self) }),
            final(self).skipped@ == if old(self).phase != ProbePhase::Idle {
                old(self).skipped@
            } else if old(self).skipped@.contains(idx) {
                old(self).skipped@.remove(idx)
            } else {
                old(self).skipped@.insert(idx)
            },
    {
        if self.phase != ProbePhase::Idle {
            return;
        }
        if self.skipped.contains(&idx) {
            self.skipped.remove(&idx);
        } else {
            self.skipped.insert(idx);
        }
    }

    /// How many points will be probed.
    pub open spec fn active_points(&self, n: int) -> nat
        decreases n,
    {
        if n <= 0 {
            0
        } else if skips(self.skipped, n - 1) {
            self.active_points(n - 1)
        } else {
            self.active_points(n - 1) + 1
        }
    }

    pub fn active_count(&self) -> (n: usize)
        requires
            self.wf(),
        ensures
            n == self.active_points(self.total()),
    {
        let total = self.grid_total();
        let mut n: usize = 0;
        for i in 0..total
            invariant
                total == self.total(),
                n <= i,
                n == self.active_points(i as int),
        {
            if !self.skipped.contains(&i) {
                n = n + 1;
            }
        }
        n
    }

    /// Whether a step of jogging by hand is the chosen one.
    pub fn manual_step_selected<A: Arithmetic>(&self, a: &A, step: Scalar) -> (yes: bool)
        requires
            a.lawful(),
        ensures
            yes == minus(a, self.manual_jog_step, step).absolute().below(
                Scalar { bits: STEP_NEAR },
            ),
    {
        minus(a, self.manual_jog_step, step).abs().lt(Scalar { bits: STEP_NEAR })
    }

    /// Whether a single point can be probed.
    pub fn can_probe(&self, mstate: &MachineState) -> (yes: bool)
        ensures
            yes == (joggable(mstate) && self.phase == ProbePhase::Idle),
    {
        mstate.connected && (mstate.status == Status::Idle || mstate.status == Status::Jog)
            && self.phase == ProbePhase::Idle
    }

    /// Whether the probing of the grid can be started.
    pub fn can_start(&self, mstate: &MachineState, jstate: &JobState) -> (yes: bool)
        ensures
            yes == (mstate.connected && mstate.status == Status::Idle && jstate.status
                != JobStatus::Running && jstate.status != JobStatus::Paused && has_area(jstate)
                && self.phase == ProbePhase::Idle),
    {
        mstate.connected && mstate.status == Status::Idle && jstate.status != JobStatus::Running
            && jstate.status != JobStatus::Paused && bbox_valid(jstate) && self.phase
            == ProbePhase::Idle
    }

    /// How the point `idx` of the grid is drawn.
    pub fn cell(&self, idx: usize) -> (cell: GridCell)
        ensures
            cell.crossed == skips(self.skipped, idx as int),
            cell.fill == if skips(self.skipped, idx as int) {
                rgba(0x66, 0x11, 0x11, 0xff)
            } else if self.phase == ProbePhase::Grid && self.current_index == idx {
                rgba(0x00, 0x33, 0x55, 0xff)
            } else if idx < self.samples@.len() && self.samples@[idx as int] is Some {
                rgba(0x11, 0x44, 0x22, 0xff)
            } else {
                rgba(0x33, 0x2a, 0x00, 0xff)
            },
    {
        let crossed = self.skipped.contains(&idx);
        let probed = idx < self.samples.len() && self.samples[idx].is_some();
        let fill = if crossed {
            rgba(0x66, 0x11, 0x11, 0xff)
        } else if self.phase == ProbePhase::Grid && self.current_index == idx {
            rgba(0x00, 0x33, 0x55, 0xff)
        } else if probed {
            rgba(0x11, 0x44, 0x22, 0xff)
        } else {
            rgba(0x33, 0x2a, 0x00, 0xff)
        };
        GridCell { crossed, fill }
    }

    /// What is said while the grid is probed.
    pub fn progress_text<A: Arithmetic>(&self, a: &A) -> (text: String)
        requires
            a.lawful(),
            self.wf(),
        ensures
            ({
                let i = if self.current_index < self.total() {
                    self.current_index as int
                } else {
                    self.total() - 1
                };
                let (x, y) = self.point(a, i);
                text@ == "probing "@ + decimal_of((i + 1) as nat) + "/"@ + decimal_of(
                    self.total() as nat,
                ) + " at ("@ + fixed(a, x, 2) + ", "@ + fixed(a, y, 2) + ")"@
            }),
    {
        let total = self.grid_total();
        assert(total >= 1) by (nonlinear_arith)
            requires
                total == self.grid_x * self.grid_y,
                self.grid_x >= 1,
                self.grid_y >= 1,
        ;
        let i: usize = if self.current_index < total {
            self.current_index
        } else {
            total - 1
        };
        let (x, y) = grid_point(a, self.bbox_min, self.bbox_max, self.grid_x, self.grid_y, i);
        let mut text = to_chars("probing ");
        append(&mut text, to_chars(decimal(i as u64 + 1).as_str()).as_slice());
        append(&mut text, to_chars("/").as_slice());
        append(&mut text, to_chars(decimal(total as u64).as_str()).as_slice());
        append(&mut text, to_chars(" at (").as_slice());
        append(&mut text, to_chars(show_fixed(a, x, 2).as_str()).as_slice());
        append(&mut text, to_chars(", ").as_slice());
        append(&mut text, to_chars(show_fixed(a, y, 2).as_str()).as_slice());
        append(&mut text, to_chars(")").as_slice());
        from_chars(text.as_slice())
    }

    /// The state in which the probing of a grid over the job begins.
    pub open spec fn grid_begun(&self, before: ProbeState, job: &JobState) -> bool {
        &&& self.samples@ == Seq::new(before.total() as nat, |i: int| None::<Scalar>)
        &&& *self == (ProbeState {
            bbox_min: (job.bounds_min.x, job.bounds_min.y),
            bbox_max: (job.bounds_max.x, job.bounds_max.y),
            cancel: false,
            phase: ProbePhase::Grid,
            samples: self.samples,
            current_index: self.current_index,
            error: self.error,
            finished: self.finished,
            ..before
        })
    }

    /// Begins to probe the grid over the job. By hand, the tool goes to the first point: the
    /// command. There must be one that is not skipped.
    pub fn start_grid<A: Arithmetic>(&mut self, a: &A, jstate: &JobState) -> (command: Option<
        String,
    >)
        requires
            a.lawful(),
            old(self).wf(),
        ensures
            final(self).wf(),
            final(self).grid_begun(*old(self), jstate),
            old(self).mode == ProbeMode::Auto ==> command is None && final(self).current_index == 0
                && final(self).error@.len() == 0 && !final(self).finished,
            old(self).mode == ProbeMode::Manual ==> match command {
                Some(line) => {
                    let first = final(self).current_index;
                    let (x, y) = final(self).point(a, first as int);
                    &&& old(self).is_next(0, Some(first))
                    &&& line@ == approach_line(a, x, y, old(self).safe_z)
                    &&& final(self).error@.len() == 0 && !final(self).finished
                },
                None => old(self).is_next(0, None) && final(self).current_index == 0
                    && final(self).error@ == "all points skipped"@ && final(self).finished,
            },
    {
        self.bbox_min = (jstate.bounds_min.x, jstate.bounds_min.y);
        self.bbox_max = (jstate.bounds_max.x, jstate.bounds_max.y);
        let total = self.grid_total();
        self.cancel = false;
        let mut samples: Vec<Option<Scalar>> = Vec::new();
        for i in 0..total
            invariant
                samples@ == Seq::new(i as nat, |k: int| None::<Scalar>),
        {
            samples.push(None);
            assert(samples@ == Seq::new((i + 1) as nat, |k: int| None::<Scalar>));
        }
        self.samples = samples;
        self.current_index = 0;
        self.error = String::new();
        self.finished = false;
        self.phase = ProbePhase::Grid;
        match self.mode {
            ProbeMode::Auto => None,
            ProbeMode::Manual => match self.next_unskipped(0) {
                Some(first) => {
                    self.current_index = first;
                    let (x, y) = grid_point(
                        a,
                        self.bbox_min,
                        self.bbox_max,
                        self.grid_x,
                        self.grid_y,
                        first,
                    );
                    Some(approach_text(a, x, y, self.safe_z))
                },
                None => {
                    self.error = text_of("all points skipped");
                    self.finished = true;
                    None
                },
            },
        }
    }

    /// Whether `plan` is what an automatic probing that begins now goes by.
    pub open spec fn plans(&self, plan: &AutoPlan) -> bool {
        &&& plan.skipped@ == Seq::new(self.total() as nat, |i: int| skips(self.skipped, i))
        &&& *plan == (AutoPlan {
            grid_x: self.grid_x,
            grid_y: self.grid_y,
            bbox_min: self.bbox_min,
            bbox_max: self.bbox_max,
            safe_z: self.safe_z,
            max_depth: self.max_depth,
            feed: self.probe_feed,
            skipped: plan.skipped,
        })
    }

    /// What an automatic probing that begins now goes by.
    pub fn auto_plan(&self) -> (plan: AutoPlan)
        requires
            self.wf(),
        ensures
            self.plans(&plan),
            plan.wf(),
    {
        let (_, _, skipped) = self.samples_snapshot();
        assert(0 <= self.grid_x * self.grid_y) by (nonlinear_arith)
            requires
                self.grid_x >= 0,
                self.grid_y >= 0,
        ;
        AutoPlan {
            grid_x: self.grid_x,
            grid_y: self.grid_y,
            bbox_min: self.bbox_min,
            bbox_max: self.bbox_max,
            safe_z: self.safe_z,
            max_depth: self.max_depth,
            feed: self.probe_feed,
            skipped,
        }
    }

    /// What an automatic probing does after the points before `from`.
    pub fn auto_next<A: Arithmetic>(&mut self, a: &A, plan: &AutoPlan, from: usize) -> (step:
        AutoStep)
        requires
            a.lawful(),
            plan.wf(),
        ensures
            match step {
                AutoStep::Cancelled => {
                    &&& old(self).cancel && from < plan.total()
                    &&& final(self).error@ == "cancelled"@
                    &&& *final(self) == (ProbeState {
                        error: final(self).error,
                        finished: true,
                        ..*old(self)
                    })
                },
                AutoStep::Probe(i, x, y) => {
                    &&& !old(self).cancel
                    &&& plan.is_next(from as int, Some(i))
                    &&& (x, y) == plan.point(a, i as int)
                    &&& *final(self) == (ProbeState { current_index: i, ..*old(self) })
                },
                AutoStep::Done => {
                    &&& from >= plan.total() || !old(self).cancel && plan.is_next(from as int, None)
                    &&& *final(self) == (ProbeState { finished: true, ..*old(self) })
                },
            },
    {
        if from < plan.skipped.len() && self.cancel {
            self.error = text_of("cancelled");
            self.finished = true;
            return AutoStep::Cancelled;
        }
        match plan.next_unskipped(from) {
            Some(i) => {
                self.current_index = i;
                let (x, y) = grid_point(
                    a,
                    plan.bbox_min,
                    plan.bbox_max,
                    plan.grid_x,
                    plan.grid_y,
                    i,
                );
                AutoStep::Probe(i, x, y)
            },
            None => {
                self.finished = true;
                AutoStep::Done
            },
        }
    }

    /// Takes the result of probing point `idx`: whether the probing goes on.
    pub fn auto_result(
        &mut self,
        plan: &AutoPlan,
        idx: usize,
        result: Result<Scalar, ProbeError>,
    ) -> (goes_on: bool)
        requires
            plan.wf(),
            idx < plan.total(),
            result is Ok ==> idx < old(self).samples@.len(),
        ensures
            match result {
                Ok(z) => {
                    &&& goes_on
                    &&& final(self).samples@ == old(self).samples@.update(idx as int, Some(z))
                    &&& *final(self) == (ProbeState {
                        samples: final(self).samples,
                        ..*old(self)
                    })
                },
                Err(e) => {
                    &&& !goes_on
                    &&& final(self).error@ == "probe failed at "@ + decimal_of((idx + 1) as nat)
                        + "/"@ + decimal_of(plan.total() as nat) + ": "@ + e.says()
                    &&& *final(self) == (ProbeState {
                        error: final(self).error,
                        finished: true,
                        ..*old(self)
                    })
                },
            },
    {
        match result {
            Ok(z) => {
                self.samples.set(idx, Some(z));
                true
            },
            Err(e) => {
                let total = plan.skipped.len();
                let mut text = to_chars("probe failed at ");
                append(&mut text, to_chars(decimal(idx as u64 + 1).as_str()).as_slice());
                append(&mut text, to_chars("/").as_slice());
                append(&mut text, to_chars(decimal(total as u64).as_str()).as_slice());
                append(&mut text, to_chars(": ").as_slice());
                append(&mut text, to_chars(e.message().as_str()).as_slice());
                self.error = from_chars(text.as_slice());
                self.finished = true;
                false
            },
        }
    }

    /// Takes the present height for the point that is probed by hand: the commands. The tool goes
    /// up, and then to the next point if there is one.
    pub fn advance_manual<A: Arithmetic>(&mut self, a: &A, mstate: &MachineState) -> (commands: Vec<
        String,
    >)
        requires
            a.lawful(),
            old(self).wf(),
            old(self).current_index < old(self).samples@.len(),
            old(self).current_index < usize::MAX,
        ensures
            final(self).wf(),
            ({
                let idx = old(self).current_index;
                let up = retract_line(a, old(self).safe_z);
                &&& final(self).samples@ == old(self).samples@.update(
                    idx as int,
                    Some(mstate.wpos.z),
                )
                &&& *final(self) == (ProbeState {
                    samples: final(self).samples,
                    current_index: final(self).current_index,
                    finished: final(self).finished,
                    ..*old(self)
                })
                &&& commands@.len() == 1 ==> {
                    &&& old(self).is_next(idx + 1, None)
                    &&& string_views(commands@) == seq![up]
                    &&& final(self).finished && final(self).current_index == idx
                }
                &&& commands@.len() != 1 ==> {
                    let next = final(self).current_index;
                    let (x, y) = old(self).point(a, next as int);
                    &&& old(self).is_next(idx + 1, Some(next))
                    &&& string_views(commands@) == seq![
                        up,
                        "G90 G21 G0 X"@ + fixed(a, x, 3) + " Y"@ + fixed(a, y, 3),
                    ]
                    &&& final(self).finished == old(self).finished
                }
            }),
    {
        let idx: usize = self.current_index;
        self.samples.set(idx, Some(mstate.wpos.z));
        let mut commands = one_line_list(retract_text(a, self.safe_z));
        match self.next_unskipped(idx + 1) {
            Some(next) => {
                self.current_index = next;
                let (x, y) = grid_point(
                    a,
                    self.bbox_min,
                    self.bbox_max,
                    self.grid_x,
                    self.grid_y,
                    next,
                );
                let mut line = to_chars("G90 G21 G0 X");
                append(&mut line, to_chars(show_fixed(a, x, 3).as_str()).as_slice());
                append(&mut line, to_chars(" Y").as_slice());
                append(&mut line, to_chars(show_fixed(a, y, 3).as_str()).as_slice());
                push_line(&mut commands, from_chars(line.as_slice()));
                assert(string_views(commands@) == seq![retract_line(a, self.safe_z), line@]);
                assert(string_views(commands@).len() == commands@.len());
            },
            None => {
                self.finished = true;
                assert(string_views(commands@).len() == commands@.len());
            },
        }
        commands
    }

    /// Ends a probing by hand: the command that takes the tool up.
    pub fn abort_manual<A: Arithmetic>(&mut self, a: &A) -> (command: String)
        requires
            a.lawful(),
        ensures
            command@ == retract_line(a, old(self).safe_z),
            *final(self) == (ProbeState { cancel: true, finished: true, ..*old(self) }),
    {
        self.cancel = true;
        self.finished = true;
        retract_text(a, self.safe_z)
    }

    /// Takes what a finished probing has found, and is idle then.
    pub fn poll_completion<A: Arithmetic>(&mut self, a: &A) -> (out: Completion)
        requires
            a.lawful(),
            old(self).wf(),
        ensures
            final(self).wf(),
            !old(self).finished ==> out is Nothing && *final(self) == *old(self),
            old(self).finished ==> {
                &&& *final(self) == (ProbeState {
                    phase: ProbePhase::Idle,
                    finished: false,
                    ..*old(self)
                })
                &&& match filled(a, old(self).samples@, old(self).skipped) {
                    Some(z) if old(self).phase == ProbePhase::Grid => match refusal(
                        old(self).bbox_min,
                        old(self).bbox_max,
                        old(self).grid_x,
                        old(self).grid_y,
                        z.len(),
                    ) {
                        Some(e) => out matches Completion::Refused(f) && f@ == e,
                        None => {
                            &&& out matches Completion::Built(map) && {
                                &&& map.z@ == z
                                &&& map == (HeightMap {
                                    bbox_min: old(self).bbox_min,
                                    bbox_max: old(self).bbox_max,
                                    grid_x: old(self).grid_x,
                                    grid_y: old(self).grid_y,
                                    z: map.z,
                                })
                            }
                        },
                    },
                    _ => out is Nothing,
                }
            },
    {
        if !self.finished {
            return Completion::Nothing;
        }
        let mut out = Completion::Nothing;
        if self.phase == ProbePhase::Grid {
            if let Some(z) = fill_skipped(a, &self.samples, &self.skipped) {
                out =
                match HeightMap::new(self.bbox_min, self.bbox_max, self.grid_x, self.grid_y, z) {
                    Ok(map) => Completion::Built(map),
                    Err(e) => Completion::Refused(e),
                };
            }
        }
        self.phase = ProbePhase::Idle;
        self.finished = false;
        out
    }

    /// Begins to probe a single point.
    pub fn begin_single(&mut self)
        ensures
            final(self).single_msg@ == "probing..."@,
            *final(self) == (ProbeState {
                phase: ProbePhase::Single,
                single_z: None,
                single_msg: final(self).single_msg,
                finished: false,
                ..*old(self)
            }),
    {
        self.phase = ProbePhase::Single;
        self.single_z = None;
        self.single_msg = text_of("probing...");
        self.finished = false;
    }

    /// Takes the result of probing a single point, with the tool at the height `wpos_z` now. Where
    /// it is to become zero, the command is given.
    pub fn end_single<A: Arithmetic>(
        &mut self,
        a: &A,
        result: Result<Scalar, ProbeError>,
        zero_after: bool,
        wpos_z: Scalar,
    ) -> (command: Option<String>)
        requires
            a.lawful(),
        ensures
            *final(self) == (ProbeState {
                single_z: match result {
                    Ok(z) => Some(z),
                    Err(_) => None,
                },
                single_msg: final(self).single_msg,
                finished: true,
                ..*old(self)
            }),
            match result {
                Ok(z) => if zero_after {
                    &&& command matches Some(c) && c@ == set_height_line(a, minus(a, wpos_z, z))
                    &&& final(self).single_msg@ == "zeroed Z at probed surface (was "@ + fixed(
                        a,
                        z,
                        3,
                    ) + ")"@
                } else {
                    &&& command is None
                    &&& final(self).single_msg@ == "probed Z = "@ + fixed(a, z, 3) + " mm"@
                },
                Err(e) => command is None && final(self).single_msg@ == "probe failed: "@
                    + e.says(),
            },
    {
        self.finished = true;
        match result {
            Ok(z) => {
                self.single_z = Some(z);
                if zero_after {
                    self.single_msg =
                    height_text(a, "zeroed Z at probed surface (was ", z, ")");
                    Some(set_height_text(a, minus(a, wpos_z, z)))
                } else {
                    self.single_msg = height_text(a, "probed Z = ", z, " mm");
                    None
                }
            },
            Err(e) => {
                self.single_z = None;
                let mut text = to_chars("probe failed: ");
                append(&mut text, to_chars(e.message().as_str()).as_slice());
                self.single_msg = from_chars(text.as_slice());
                None
            },
        }
    }

    /// Makes the height that was found last the zero: the command, if there is one.
    pub fn zero_here<A: Arithmetic>(&mut self, a: &A, mstate: &MachineState) -> (command: Option<
        String,
    >)
        requires
            a.lawful(),
        ensures
            match old(self).single_z {
                Some(z) => {
                    &&& command matches Some(c) && c@ == set_height_line(
                        a,
                        minus(a, mstate.wpos.z, z),
                    )
                    &&& final(self).single_msg@ == "Z0 set at probed surface (was Z="@ + fixed(
                        a,
                        z,
                        3,
                    ) + ")"@
                    &&& *final(self) == (ProbeState {
                        single_z: None,
                        single_msg: final(self).single_msg,
                        ..*old(self)
                    })
                },
                None => command is None && *final(self) == *old(self),
            },
    {
        match self.single_z {
            Some(z) => {
                self.single_z = None;
                self.single_msg = height_text(a, "Z0 set at probed surface (was Z=", z, ")");
                Some(set_height_text(a, minus(a, mstate.wpos.z, z)))
            },
            None => None,
        }
    }
}

/// What the scene shows of a probing: the attached map, or else the grid over the job.
pub fn build_probe_preview(jstate: &JobState, probe: &ProbeState) -> (preview: Option<ProbePreview>)
    requires
        probe.wf(),
        jstate.wf(),
    ensures
        preview is Some == has_area(jstate),
        preview matches Some(p) ==> match jstate.heightmap {
            Some(map) => {
                &&& (p.bbox_min, p.bbox_max, p.grid_x, p.grid_y) == (
                    map.bbox_min,
                    map.bbox_max,
                    map.grid_x,
                    map.grid_y,
                )
                &&& p.samples matches Some(s) && s@ == map.z@.map_values(|z: Scalar| Some(z))
                &&& p.current_index is None
                &&& p.skipped@ == Seq::new(map.z@.len(), |i: int| false)
            },
            None => {
                &&& p.bbox_min == (jstate.bounds_min.x, jstate.bounds_min.y)
                &&& p.bbox_max == (jstate.bounds_max.x, jstate.bounds_max.y)
                &&& (p.grid_x, p.grid_y) == (probe.grid_x, probe.grid_y)
                &&& match p.samples {
                    Some(s) => s@ == probe.samples@ && s@.len() > 0,
                    None => probe.samples@.len() == 0,
                }
                &&& p.current_index == if probe.phase == ProbePhase::Grid {
                    Some(probe.current_index)
                } else {
                    None
                }
                &&& p.skipped@ == Seq::new(
                    probe.total() as nat,
                    |i: int| skips(probe.skipped, i),
                )
            },
        },
{
    if !bbox_valid(jstate) {
        return None;
    }
    match &jstate.heightmap {
        Some(map) => {
            let mut samples: Vec<Option<Scalar>> = Vec::new();
            let ghost all = map.z@.map_values(|z: Scalar| Some(z));
            for i in 0..map.z.len()
                invariant
                    all == map.z@.map_values(|z: Scalar| Some(z)),
                    samples@ == all.take(i as int),
            {
                samples.push(Some(map.z[i]));
                assert(all.take(i + 1) == all.take(i as int).push(all[i as int]));
            }
            assert(all.take(map.z.len() as int) == all);
            let skipped: Vec<bool> = vec![false; map.z.len()];
            assert(skipped@ == Seq::new(map.z@.len(), |i: int| false));
            Some(
                ProbePreview {
                    bbox_min: map.bbox_min,
                    bbox_max: map.bbox_max,
                    grid_x: map.grid_x,
                    grid_y: map.grid_y,
                    samples: Some(samples),
                    current_index: None,
                    skipped,
                },
            )
        },
        None => {
            let (samples, current_index, skipped) = probe.samples_snapshot();
            Some(
                ProbePreview {
                    bbox_min: (jstate.bounds_min.x, jstate.bounds_min.y),
                    bbox_max: (jstate.bounds_max.x, jstate.bounds_max.y),
                    grid_x: probe.grid_x,
                    grid_y: probe.grid_y,
                    samples: if samples.len() == 0 {
                        None
                    } else {
                        Some(samples)
                    },
                    current_index,
                    skipped,
                },
            )
        },
    }
}

} // verus!
