//! The job: loading it, simulating it, running it, and the list of its lines.
use std::sync::Arc;
use vstd::prelude::*;
use crate::arith::{
    fixed, minus, over, plus, show_fixed, single_of, times, to_unsigned, Arithmetic, Scalar, ONE,
};
use crate::gcode::parser::{bounds_of, parse_with_bounds, path_of};
use crate::gcode::words::{has_word, upper, words_of, LETTER_Z};
use crate::grbl::engine::Engine;
use crate::grbl::heightmap::text_of;
use crate::grbl::passes::{EPSILON, LEAST};
use crate::grbl::state::{
    bump, marks_of, next_version, normalize_pass_tolerance, origin, pass_counts_are_current,
    recompute_soft_limit_violations, spec_dist, spec_lerp, JobState, JobStatus, MachineState,
    Segment, Status, Vec3, DEFAULT_PASS_TOLERANCE_MM,
};
use crate::lines::{append, lines, lines_of};
use crate::text::{decimal, decimal_of, from_chars, string_views, to_chars, views};
use crate::ui::color::{rgba, Color, Ink};
use crate::ui::controls::{elapsed, since};

verus! {

/// 100
pub const HUNDRED: u32 = 0x42c8_0000;

/// The length under which a segment takes no time, 0.001.
pub const SHORT_SEGMENT: u32 = 0x3a83_126f;

/// The speed of a simulation at first, 20.
pub const FIRST_FEED: u32 = 0x41a0_0000;

/// How long a first click on the start waits for the second, in nanoseconds.
pub const ARMED_NS: u64 = 3_000_000_000;

/// How many lines are shown before and behind the one in the centre.
pub const WINDOW_RADIUS: usize = 90;

/// What was loaded.
#[derive(Clone, Copy, Debug, PartialEq, Eq, Structural)]
pub struct LoadReport {
    pub line_count: usize,
    pub segment_count: usize,
}

/// Which lines are listed.
#[derive(Clone, Copy, Debug, PartialEq, Eq, Structural)]
pub enum EditorFilter {
    All,
    Z,
    Limits,
    Heat,
    Rapids,
}

impl Default for EditorFilter {
    fn default() -> (f: EditorFilter)
        ensures
            f == EditorFilter::All,
    {
        EditorFilter::All
    }
}

/// What the marks of a job depend on.
#[derive(Clone, Copy, Debug)]
pub struct SoftLimitValidationKey {
    pub job_version: usize,
    pub connected: bool,
    pub soft_limits: bool,
    pub wco: Vec3,
    pub max_travel: Vec3,
}

impl SoftLimitValidationKey {
    pub open spec fn equals(self, other: SoftLimitValidationKey) -> bool {
        &&& self.job_version == other.job_version
        &&& self.connected == other.connected
        &&& self.soft_limits == other.soft_limits
        &&& self.wco.equals(other.wco)
        &&& self.max_travel.equals(other.max_travel)
    }

    fn same(self, other: SoftLimitValidationKey) -> (yes: bool)
        ensures
            yes == self.equals(other),
    {
        self.job_version == other.job_version && self.connected == other.connected
            && self.soft_limits == other.soft_limits && self.wco.same(other.wco)
            && self.max_travel.same(other.max_travel)
    }
}

/// The key of a job and a machine.
pub open spec fn key_of(version: usize, m: &MachineState) -> SoftLimitValidationKey {
    SoftLimitValidationKey {
        job_version: version,
        connected: m.connected,
        soft_limits: m.soft_limits,
        wco: m.wco,
        max_travel: m.max_travel,
    }
}

/// The state of the editor. Times are nanoseconds of one clock.
#[derive(Clone, Debug)]
pub struct EditorState {
    pub simulating: bool,
    pub sim_playing: bool,
    pub sim_seg: usize,
    pub sim_frac: Scalar,
    pub sim_last_tick: u64,
    pub warning: String,
    pub sim_pos: Vec3,
    pub sim_feed: Scalar,
    pub z_locked: bool,
    pub filter: EditorFilter,
    pub sim_line: usize,
    pub jump_line: usize,
    pub pass_tolerance_mm: Scalar,
    pub show_heatmap: bool,
    pub manual_focus_line: Option<usize>,
    /// Whether a file is being loaded.
    pub loading: bool,
    /// Whether the passes are being counted.
    pub counting: bool,
    pub live_start_confirm: Option<u64>,
    pub live_started_at: Option<u64>,
    pub last_live_status: JobStatus,
    pub last_soft_limit_validation: SoftLimitValidationKey,
}

impl EditorState {
    /// The state at first.
    pub open spec fn fresh(self) -> bool {
        &&& self.warning@.len() == 0
        &&& self == (EditorState {
            simulating: false,
            sim_playing: false,
            sim_seg: 0,
            sim_frac: Scalar { bits: 0 },
            sim_last_tick: 0,
            warning: self.warning,
            sim_pos: origin(),
            sim_feed: Scalar { bits: FIRST_FEED },
            z_locked: false,
            filter: EditorFilter::All,
            sim_line: 0,
            jump_line: 1,
            pass_tolerance_mm: Scalar { bits: DEFAULT_PASS_TOLERANCE_MM },
            show_heatmap: true,
            manual_focus_line: None,
            loading: false,
            counting: false,
            live_start_confirm: None,
            live_started_at: None,
            last_live_status: JobStatus::Idle,
            last_soft_limit_validation: SoftLimitValidationKey {
                job_version: 0,
                connected: false,
                soft_limits: false,
                wco: origin(),
                max_travel: origin(),
            },
        })
    }
}

impl Default for EditorState {
    fn default() -> (s: EditorState)
        ensures
            s.fresh(),
    {
        EditorState {
            simulating: false,
            sim_playing: false,
            sim_seg: 0,
            sim_frac: Scalar { bits: 0 },
            sim_last_tick: 0,
            warning: String::new(),
            sim_pos: Vec3::default(),
            sim_feed: Scalar { bits: FIRST_FEED },
            z_locked: false,
            filter: EditorFilter::All,
            sim_line: 0,
            jump_line: 1,
            pass_tolerance_mm: Scalar { bits: DEFAULT_PASS_TOLERANCE_MM },
            show_heatmap: true,
            manual_focus_line: None,
            loading: false,
            counting: false,
            live_start_confirm: None,
            live_started_at: None,
            last_live_status: JobStatus::Idle,
            last_soft_limit_validation: SoftLimitValidationKey {
                job_version: 0,
                connected: false,
                soft_limits: false,
                wco: Vec3::default(),
                max_travel: Vec3::default(),
            },
        }
    }
}

/// The length of a path.
pub open spec fn length_of<A: Arithmetic>(a: &A, segments: Seq<Segment>) -> Scalar
    decreases segments.len(),
{
    if segments.len() == 0 {
        Scalar { bits: 0 }
    } else {
        plus(
            a,
            length_of(a, segments.drop_last()),
            spec_dist(a, segments.last().start, segments.last().end),
        )
    }
}

/// Makes `content` the job. It is at its first line then, without marks and with every pass
/// counted once; a height map stays.
pub fn load_job<A: Arithmetic>(a: &A, job: &mut JobState, content: &str) -> (report: LoadReport)
    requires
        a.lawful(),
    ensures
        ({
            let j = *final(job);
            let texts = lines_of(content@);
            let path = path_of(a, texts).1;
            &&& string_views(j.lines@) == texts
            &&& j.segments@ == path
            &&& j.seg_violations@ == Seq::new(path.len(), |k: int| false)
            &&& j.violated_lines@ == Seq::new(texts.len(), |k: int| false)
            &&& j.seg_pass_counts@ == Seq::new(path.len(), |k: int| 1u16)
            &&& j.line_pass_counts@ == Seq::new(texts.len(), |k: int| 1u16)
            &&& j == (JobState {
                lines: j.lines,
                segments: j.segments,
                seg_violations: j.seg_violations,
                violated_lines: j.violated_lines,
                seg_pass_counts: j.seg_pass_counts,
                line_pass_counts: j.line_pass_counts,
                pass_tolerance_mm: Scalar { bits: 0 },
                bounds_min: bounds_of(path).0,
                bounds_max: bounds_of(path).1,
                total_dist: length_of(a, path),
                version: next_version(old(job).version),
                status: JobStatus::Idle,
                current_line: 0,
                ..*old(job)
            })
            &&& report.line_count == texts.len()
            &&& report.segment_count == path.len()
        }),
{
    let texts = lines(to_chars(content).as_slice());
    let mut list: Vec<String> = Vec::new();
    let ghost all = lines_of(content@);
    assert(string_views(list@) == all.take(0));
    for i in 0..texts.len()
        invariant
            all == views(texts@),
            string_views(list@) == all.take(i as int),
    {
        let ghost before = string_views(list@);
        list.push(from_chars(texts[i].as_slice()));
        assert(string_views(list@) == before.push(all[i as int]));
        assert(all.take(i + 1) == all.take(i as int).push(all[i as int]));
    }
    assert(all.take(texts.len() as int) == all);
    let (segs, bmin, bmax) = parse_with_bounds(a, list.as_slice());
    let mut total_dist = Scalar { bits: 0 };
    assert(segs@.take(0) == Seq::<Segment>::empty());
    for k in 0..segs.len()
        invariant
            a.lawful(),
            total_dist == length_of(a, segs@.take(k as int)),
    {
        assert(segs@.take(k + 1).drop_last() == segs@.take(k as int));
        total_dist = plus(a, total_dist, segs[k].start.dist(a, segs[k].end));
    }
    assert(segs@.take(segs.len() as int) == segs@);
    let report = LoadReport { line_count: list.len(), segment_count: segs.len() };
    assert(string_views(list@).len() == list@.len());
    let seg_flags: Vec<bool> = vec![false; segs.len()];
    let line_flags: Vec<bool> = vec![false; list.len()];
    let seg_ones: Vec<u16> = vec![1; segs.len()];
    let line_ones: Vec<u16> = vec![1; list.len()];
    assert(seg_flags@ == Seq::new(segs@.len(), |k: int| false));
    assert(line_flags@ == Seq::new(all.len(), |k: int| false));
    assert(seg_ones@ == Seq::new(segs@.len(), |k: int| 1u16));
    assert(line_ones@ == Seq::new(all.len(), |k: int| 1u16));
    job.seg_violations = Arc::new(seg_flags);
    job.violated_lines = Arc::new(line_flags);
    job.seg_pass_counts = Arc::new(seg_ones);
    job.line_pass_counts = Arc::new(line_ones);
    job.pass_tolerance_mm = Scalar { bits: 0 };
    job.lines = Arc::new(list);
    job.segments = Arc::new(segs);
    job.bounds_min = bmin;
    job.bounds_max = bmax;
    job.total_dist = total_dist;
    job.version = bump(job.version);
    job.status = JobStatus::Idle;
    job.current_line = 0;
    report
}

/// What has become of loading a file.
pub enum LoadOutcome {
    Loaded(LoadReport),
    Cancelled,
    Failed(String),
    /// It is not done yet.
    Pending,
    /// Nothing will come of it.
    Lost,
}

/// The counts of passes, and what they were made for.
pub struct PassTaskResult {
    pub line_count: usize,
    pub tolerance_mm: Scalar,
    pub seg_pass_counts: Vec<u16>,
    pub line_pass_counts: Vec<u16>,
}

/// `n` on two places.
pub open spec fn two_digits(n: nat) -> Seq<char> {
    if n < 10 {
        seq!['0'] + decimal_of(n)
    } else {
        decimal_of(n)
    }
}

fn push_two_digits(out: &mut Vec<char>, n: u64)
    ensures
        final(out)@ == old(out)@ + two_digits(n as nat),
{
    let ghost before = out@;
    if n < 10 {
        out.push('0');
    }
    append(out, to_chars(decimal(n).as_str()).as_slice());
    assert(out@ == before + two_digits(n as nat));
}

/// A time in hours, minutes and seconds.
pub open spec fn time_text(secs: nat) -> Seq<char> {
    let h = secs / 3600;
    let m = (secs % 3600) / 60;
    let s = secs % 60;
    if h > 0 {
        decimal_of(h) + "h "@ + two_digits(m) + "m "@ + two_digits(s) + "s"@
    } else {
        decimal_of(m) + "m "@ + two_digits(s) + "s"@
    }
}

pub fn fmt_secs(secs: u64) -> (out: String)
    ensures
        out@ == time_text(secs as nat),
{
    let h: u64 = secs / 3600;
    let m: u64 = (secs % 3600) / 60;
    let s: u64 = secs % 60;
    let mut out: Vec<char> = Vec::new();
    if h > 0 {
        append(&mut out, to_chars(decimal(h).as_str()).as_slice());
        append(&mut out, to_chars("h ").as_slice());
        push_two_digits(&mut out, m);
    } else {
        append(&mut out, to_chars(decimal(m).as_str()).as_slice());
    }
    append(&mut out, to_chars("m ").as_slice());
    push_two_digits(&mut out, s);
    append(&mut out, to_chars("s").as_slice());
    assert(out@ == time_text(secs as nat));
    from_chars(out.as_slice())
}

/// The line behind `line`.
pub open spec fn behind(line: usize) -> usize {
    if line == usize::MAX {
        line
    } else {
        (line + 1) as usize
    }
}

fn next_line(line: usize) -> (n: usize)
    ensures
        n == behind(line),
{
    if line == usize::MAX {
        line
    } else {
        line + 1
    }
}

/// The line that a segment comes from; behind the last segment, the line behind its line.
pub open spec fn line_at(segments: Seq<Segment>, seg: int) -> usize {
    if seg < segments.len() {
        segments[seg].line
    } else if segments.len() > 0 {
        behind(segments.last().line)
    } else {
        0
    }
}

pub fn seg_to_line(segments: &[Segment], seg_idx: usize) -> (line: usize)
    ensures
        line == line_at(segments@, seg_idx as int),
{
    if seg_idx < segments.len() {
        segments[seg_idx].line
    } else if segments.len() > 0 {
        next_line(segments[segments.len() - 1].line)
    } else {
        0
    }
}

/// Whether a list has a mark at `k`.
pub open spec fn marked(marks: Seq<bool>, k: int) -> bool {
    k < marks.len() && marks[k]
}

/// Where a simulation gets with `remaining` millimetres to go: the segment, the part of it that is
/// done, and whether a marked segment stopped it.
pub open spec fn simulated<A: Arithmetic>(
    a: &A,
    segments: Seq<Segment>,
    marks: Seq<bool>,
    seg: int,
    frac: Scalar,
    remaining: Scalar,
) -> (int, Scalar, bool)
    decreases segments.len() - seg,
{
    if !(Scalar { bits: 0 }).below(remaining) || seg >= segments.len() {
        (seg, frac, false)
    } else if marked(marks, seg) {
        (seg, frac, true)
    } else {
        let len = spec_dist(a, segments[seg].start, segments[seg].end);
        let left = times(a, minus(a, Scalar { bits: ONE }, frac), len);
        if len.below(Scalar { bits: SHORT_SEGMENT }) || left.at_most(remaining) {
            simulated(
                a,
                segments,
                marks,
                seg + 1,
                Scalar { bits: 0 },
                minus(a, remaining, left),
            )
        } else {
            (seg, plus(a, frac, over(a, remaining, len)), false)
        }
    }
}

/// Whether there is a round to go: one if there is, else none.
spec fn rounds_left(stopped: bool, remaining: Scalar) -> int {
    if !stopped && (Scalar { bits: 0 }).below(remaining) {
        1
    } else {
        0
    }
}

/// The place of a simulation that has got to `seg` and `frac`.
pub open spec fn place_at<A: Arithmetic>(
    a: &A,
    segments: Seq<Segment>,
    seg: int,
    frac: Scalar,
) -> Vec3 {
    if seg < segments.len() {
        spec_lerp(a, segments[seg].start, segments[seg].end, frac)
    } else if segments.len() > 0 {
        segments.last().end
    } else {
        origin()
    }
}

/// `p`, on the surface if the height is locked.
pub open spec fn locked(p: Vec3, z_locked: bool) -> Vec3 {
    if z_locked {
        Vec3 { z: Scalar { bits: 0 }, ..p }
    } else {
        p
    }
}

/// The first segment from `seg` on that is not from `line`.
pub open spec fn line_end(segments: Seq<Segment>, seg: int, line: usize) -> int
    decreases segments.len() - seg,
{
    if 0 <= seg < segments.len() && segments[seg].line == line {
        line_end(segments, seg + 1, line)
    } else {
        seg
    }
}

/// Whether line `line` has a rapid move.
pub open spec fn has_rapid(segments: Seq<Segment>, line: int) -> bool {
    exists|k: int|
        0 <= k < segments.len() && (#[trigger] segments[k]).line == line && segments[k].rapid
}

pub fn line_has_rapid(jstate: &JobState, line: usize) -> (yes: bool)
    ensures
        yes == has_rapid(jstate.segments@, line as int),
{
    for k in 0..jstate.segments.len()
        invariant
            forall|j: int|
                0 <= j < k ==> !((#[trigger] jstate.segments@[j]).line == line
                    && jstate.segments@[j].rapid),
    {
        if jstate.segments[k].line == line && jstate.segments[k].rapid {
            return true;
        }
    }
    false
}

/// The passes of line `k`, one where they are not counted.
pub open spec fn passes_of(counts: Seq<u16>, k: int) -> u16 {
    if k < counts.len() {
        counts[k]
    } else {
        1
    }
}

/// Whether the line has a word with the letter Z.
pub open spec fn has_z(line: Seq<char>) -> bool {
    exists|k: int|
        0 <= k < words_of(line).len() && (#[trigger] words_of(line)[k]).0 == upper(LETTER_Z)
}

/// Whether a filter lists line `k`.
pub open spec fn lists(filter: EditorFilter, job: &JobState, k: int) -> bool {
    match filter {
        EditorFilter::All => true,
        EditorFilter::Z => has_z(job.lines@[k]@),
        EditorFilter::Limits => marked(job.violated_lines@, k),
        EditorFilter::Heat => passes_of(job.line_pass_counts@, k) > 1,
        EditorFilter::Rapids => has_rapid(job.segments@, k),
    }
}

fn listed(filter: EditorFilter, job: &JobState, k: usize) -> (yes: bool)
    requires
        k < job.lines@.len(),
    ensures
        yes == lists(filter, job, k as int),
{
    match filter {
        EditorFilter::All => true,
        EditorFilter::Z => has_word(job.lines[k].as_str(), LETTER_Z),
        EditorFilter::Limits => k < job.violated_lines.len() && job.violated_lines[k],
        EditorFilter::Heat => k < job.line_pass_counts.len() && job.line_pass_counts[k] > 1,
        EditorFilter::Rapids => line_has_rapid(job, k),
    }
}

/// Those of the first `n` lines that a filter lists.
pub open spec fn listing(filter: EditorFilter, job: &JobState, n: int) -> Seq<usize>
    decreases n,
{
    if n <= 0 {
        Seq::empty()
    } else if lists(filter, job, n - 1) {
        listing(filter, job, n - 1).push((n - 1) as usize)
    } else {
        listing(filter, job, n - 1)
    }
}

/// The lines that the editor lists.
pub fn visible_lines(filter: EditorFilter, job: &JobState) -> (out: Vec<usize>)
    ensures
        out@ == listing(filter, job, job.lines@.len() as int),
{
    let mut out: Vec<usize> = Vec::new();
    for k in 0..job.lines.len()
        invariant
            out@ == listing(filter, job, k as int),
    {
        if listed(filter, job, k) {
            out.push(k);
        }
    }
    out
}

/// A filter lists a line exactly if the line is such a one, in the order of the job.
pub proof fn lemma_listing(filter: EditorFilter, job: &JobState, n: int)
    requires
        0 <= n <= usize::MAX,
    ensures
        forall|k: int|
            0 <= k < n ==> (#[trigger] lists(filter, job, k) <==> listing(filter, job, n).contains(
                k as usize,
            )),
        forall|i: int|
            0 <= i < listing(filter, job, n).len() ==> #[trigger] listing(filter, job, n)[i] < n,
        forall|i: int, j: int|
            0 <= i < j < listing(filter, job, n).len() ==> #[trigger] listing(filter, job, n)[i]
                < #[trigger] listing(filter, job, n)[j],
    decreases n,
{
    if n > 0 {
        lemma_listing(filter, job, n - 1);
        let front = listing(filter, job, n - 1);
        let all = listing(filter, job, n);
        assert forall|k: int| 0 <= k < n implies (#[trigger] lists(filter, job, k)
            <==> all.contains(k as usize)) by {
            if k < n - 1 {
                if front.contains(k as usize) {
                    let i = choose|i: int| 0 <= i < front.len() && front[i] == k as usize;
                    assert(all[i] == k as usize);
                }
                if all.contains(k as usize) {
                    let i = choose|i: int| 0 <= i < all.len() && all[i] == k as usize;
                    assert(i < front.len() ==> front[i] == k as usize);
                    assert(i < front.len());
                }
            } else {
                if lists(filter, job, k) {
                    assert(all[all.len() - 1] == k as usize);
                }
                if all.contains(k as usize) && !lists(filter, job, k) {
                    let i = choose|i: int| 0 <= i < all.len() && all[i] == k as usize;
                    assert(front[i] < n - 1);
                }
            }
        }
        assert forall|i: int| 0 <= i < all.len() implies #[trigger] all[i] < n by {
            assert(i < front.len() ==> all[i] == front[i]);
        }
        assert forall|i: int, j: int| 0 <= i < j < all.len() implies #[trigger] all[i]
            < #[trigger] all[j] by {
            assert(all[i] == front[i]);
            assert(j < front.len() ==> all[j] == front[j]);
        }
    }
}

/// Whether the machine is ready to run lines of a job.
pub open spec fn ready(m: &MachineState, job: &JobState, has_lines: bool) -> bool {
    &&& has_lines
    &&& m.connected
    &&& m.status == Status::Idle
    &&& job.status != JobStatus::Running
    &&& job.status != JobStatus::Paused
}

pub fn can_live_start(mstate: &MachineState, jstate: &JobState, has_lines: bool) -> (yes: bool)
    ensures
        yes == ready(mstate, jstate, has_lines),
{
    has_lines && mstate.connected && mstate.status == Status::Idle && jstate.status
        != JobStatus::Running && jstate.status != JobStatus::Paused
}

pub fn can_live_step(mstate: &MachineState, jstate: &JobState, has_lines: bool) -> (yes: bool)
    ensures
        yes == ready(mstate, jstate, has_lines),
{
    can_live_start(mstate, jstate, has_lines)
}

/// The colour of a count of passes.
pub open spec fn heat(pass_count: u16) -> Color {
    if pass_count <= 1 {
        Ink::Dim.shade()
    } else if pass_count == 2 {
        rgba(0xff, 0xdd, 0x33, 0xff)
    } else if pass_count == 3 {
        rgba(0xff, 0x99, 0x22, 0xff)
    } else if pass_count == 4 {
        rgba(0xff, 0x55, 0x22, 0xff)
    } else {
        rgba(0xff, 0x22, 0x66, 0xff)
    }
}

pub fn heat_badge_color(pass_count: u16) -> (c: Color)
    ensures
        c == heat(pass_count),
{
    if pass_count <= 1 {
        Ink::Dim.color()
    } else if pass_count == 2 {
        rgba(0xff, 0xdd, 0x33, 0xff)
    } else if pass_count == 3 {
        rgba(0xff, 0x99, 0x22, 0xff)
    } else if pass_count == 4 {
        rgba(0xff, 0x55, 0x22, 0xff)
    } else {
        rgba(0xff, 0x22, 0x66, 0xff)
    }
}

/// Whether the lists are equal.
fn same_counts(v: &Vec<u16>, w: &Vec<u16>) -> (yes: bool)
    ensures
        yes == (v@ == w@),
{
    if v.len() != w.len() {
        return false;
    }
    for i in 0..v.len()
        invariant
            v.len() == w.len(),
            forall|k: int| 0 <= k < i ==> v@[k] == w@[k],
    {
        if v[i] != w[i] {
            return false;
        }
    }
    assert(v@ == w@);
    true
}

/// The state with the simulation at its start.
pub open spec fn sim_at_start(s: EditorState, now: u64) -> EditorState {
    EditorState {
        simulating: false,
        sim_playing: false,
        sim_seg: 0,
        sim_frac: Scalar { bits: 0 },
        sim_line: 0,
        sim_pos: origin(),
        sim_last_tick: now,
        ..s
    }
}

/// The state in which a simulation is under way: from its start, unless it is already.
pub open spec fn sim_entered(s: EditorState, now: u64) -> EditorState {
    if s.simulating {
        s
    } else {
        EditorState { simulating: true, ..sim_at_start(s, now) }
    }
}

/// The state after the next line of the simulation.
pub open spec fn sim_stepped(s: EditorState, job: &JobState) -> EditorState {
    let segments = job.segments@;
    if s.sim_seg < segments.len() {
        let seg = line_end(segments, s.sim_seg as int, segments[s.sim_seg as int].line);
        EditorState {
            sim_seg: seg as usize,
            sim_frac: Scalar { bits: 0 },
            sim_line: line_at(segments, seg),
            sim_pos: locked(segments[seg - 1].end, s.z_locked),
            ..s
        }
    } else {
        EditorState { sim_line: job.lines@.len() as usize, ..s }
    }
}

proof fn lemma_line_end(segments: Seq<Segment>, seg: int, line: usize)
    requires
        0 <= seg <= segments.len(),
    ensures
        seg <= line_end(segments, seg, line) <= segments.len(),
    decreases segments.len() - seg,
{
    if seg < segments.len() && segments[seg].line == line {
        lemma_line_end(segments, seg + 1, line);
    }
}

/// A step of the simulation passes at least one segment, and all that it passes are from one line.
pub proof fn lemma_step_passes_a_line(segments: Seq<Segment>, seg: int)
    requires
        0 <= seg < segments.len(),
    ensures
        ({
            let end = line_end(segments, seg, segments[seg].line);
            &&& seg < end <= segments.len()
            &&& forall|k: int|
                seg <= k < end ==> (#[trigger] segments[k]).line == segments[seg].line
            &&& end < segments.len() ==> segments[end].line != segments[seg].line
        }),
{
    lemma_line_run(segments, seg, segments[seg].line);
    lemma_line_end(segments, seg + 1, segments[seg].line);
}

proof fn lemma_line_run(segments: Seq<Segment>, seg: int, line: usize)
    requires
        0 <= seg <= segments.len(),
    ensures
        forall|k: int|
            seg <= k < line_end(segments, seg, line) ==> (#[trigger] segments[k]).line == line,
        line_end(segments, seg, line) < segments.len() ==> segments[line_end(
            segments,
            seg,
            line,
        )].line != line,
    decreases segments.len() - seg,
{
    if seg < segments.len() && segments[seg].line == line {
        lemma_line_run(segments, seg + 1, line);
    }
}

/// The texts and the enabled buttons of the toolbar.
pub struct Toolbar {
    pub can_open: bool,
    pub playing: bool,
    pub play_label: &'static str,
    pub can_play: bool,
    pub can_reset_sim: bool,
    pub z_label: &'static str,
    pub can_reset_job: bool,
    pub can_step: bool,
    pub start_label: &'static str,
    pub can_start: bool,
}

/// Whether the start was clicked not too long ago.
pub open spec fn start_armed(confirm: Option<u64>, now: u64) -> bool {
    confirm matches Some(at) && since(now, at) < ARMED_NS
}

/// How far the job and the simulation are.
pub struct Progress {
    pub total: usize,
    pub live_line: usize,
    pub live_part: Scalar,
    pub live_text: String,
    pub sim_line: usize,
    pub sim_part: Scalar,
    pub eta_secs: u64,
}

/// How a line of the list looks.
pub struct LineRow {
    pub current: bool,
    pub focused: bool,
    pub z: bool,
    pub rapid: bool,
    pub badge: Option<u16>,
    pub ink: Ink,
}

fn lesser_of(x: usize, y: usize) -> (r: usize)
    ensures
        r == if x < y {
            x
        } else {
            y
        },
{
    if x < y {
        x
    } else {
        y
    }
}

fn millimetres_text<A: Arithmetic>(a: &A, label: &str, x: Scalar, tail: &str) -> (out: String)
    requires
        a.lawful(),
    ensures
        out@ == label@ + fixed(a, x, 3) + tail@,
{
    let mut out = to_chars(label);
    append(&mut out, to_chars(show_fixed(a, x, 3).as_str()).as_slice());
    append(&mut out, to_chars(tail).as_slice());
    from_chars(out.as_slice())
}

impl EditorState {
    /// Begins to load a file, unless one is being loaded: whether it may.
    pub fn begin_load(&mut self, by_dialog: bool) -> (begun: bool)
        ensures
            begun == !old(self).loading,
            final(self).warning@ == if !begun {
                "A file is already loading"@
            } else if by_dialog {
                "Opening file..."@
            } else {
                "Loading file..."@
            },
            *final(self) == (EditorState {
                loading: true,
                warning: final(self).warning,
                ..*old(self)
            }),
    {
        if self.loading {
            self.warning = text_of("A file is already loading");
            return false;
        }
        self.loading = true;
        self.warning =
        if by_dialog {
            text_of("Opening file...")
        } else {
            text_of("Loading file...")
        };
        true
    }

    /// Takes what has become of loading a file.
    pub fn poll_load(&mut self, outcome: LoadOutcome, now: u64)
        ensures
            match outcome {
                LoadOutcome::Pending => *final(self) == *old(self),
                LoadOutcome::Loaded(report) => {
                    &&& final(self).warning@ == "Loaded "@ + decimal_of(report.line_count as nat)
                        + " lines, "@ + decimal_of(report.segment_count as nat)
                        + " preview segments"@
                    &&& *final(self) == (EditorState {
                        loading: false,
                        warning: final(self).warning,
                        manual_focus_line: None,
                        jump_line: 1,
                        ..sim_at_start(*old(self), now)
                    })
                },
                _ => {
                    &&& final(self).warning@ == match outcome {
                        LoadOutcome::Failed(e) => e@,
                        LoadOutcome::Lost => "File load task stopped unexpectedly"@,
                        _ => Seq::<char>::empty(),
                    }
                    &&& *final(self) == (EditorState {
                        loading: false,
                        warning: final(self).warning,
                        ..*old(self)
                    })
                },
            },
    {
        match outcome {
            LoadOutcome::Pending => {},
            LoadOutcome::Loaded(report) => {
                self.reset_simulation(now);
                self.loading = false;
                self.manual_focus_line = None;
                self.jump_line = 1;
                let mut text = to_chars("Loaded ");
                append(&mut text, to_chars(decimal(report.line_count as u64).as_str()).as_slice());
                append(&mut text, to_chars(" lines, ").as_slice());
                append(
                    &mut text,
                    to_chars(decimal(report.segment_count as u64).as_str()).as_slice(),
                );
                append(&mut text, to_chars(" preview segments").as_slice());
                self.warning = from_chars(text.as_slice());
            },
            LoadOutcome::Cancelled => {
                self.loading = false;
                self.warning = String::new();
                assert(self.warning@ == Seq::<char>::empty());
            },
            LoadOutcome::Failed(e) => {
                self.loading = false;
                self.warning = e;
            },
            LoadOutcome::Lost => {
                self.loading = false;
                self.warning = text_of("File load task stopped unexpectedly");
            },
        }
    }

    /// Whether the passes are to be counted anew: the tolerance for which, where they are.
    pub fn request_pass_recompute<A: Arithmetic>(&mut self, a: &A, job: &JobState) -> (wanted: Option<
        Scalar,
    >)
        requires
            a.lawful(),
        ensures
            ({
                let tolerance = old(self).pass_tolerance_mm.greater(
                    Scalar { bits: LEAST },
                );
                let current = minus(a, job.pass_tolerance_mm, tolerance).absolute().at_most(
                    Scalar { bits: EPSILON },
                ) && job.seg_pass_counts@.len() == job.segments@.len()
                    && job.line_pass_counts@.len() == job.lines@.len();
                if !old(self).show_heatmap || old(self).loading || old(self).counting
                    || job.lines@.len() == 0 || current {
                    &&& wanted is None
                    &&& *final(self) == (EditorState {
                        pass_tolerance_mm: tolerance,
                        ..*old(self)
                    })
                } else {
                    &&& wanted == Some(tolerance)
                    &&& final(self).warning@ == "Updating heatmap tolerance "@ + fixed(
                        a,
                        tolerance,
                        3,
                    ) + " mm..."@
                    &&& *final(self) == (EditorState {
                        pass_tolerance_mm: tolerance,
                        counting: true,
                        warning: final(self).warning,
                        ..*old(self)
                    })
                }
            }),
    {
        self.pass_tolerance_mm = normalize_pass_tolerance(self.pass_tolerance_mm);
        if !self.show_heatmap || self.loading || self.counting {
            return None;
        }
        let tolerance = self.pass_tolerance_mm;
        if job.lines.len() == 0 || pass_counts_are_current(a, job, tolerance) {
            return None;
        }
        self.counting = true;
        self.warning = millimetres_text(a, "Updating heatmap tolerance ", tolerance, " mm...");
        Some(tolerance)
    }

    /// Takes counts of passes. They go to the job if it still has the path that they were made for
    /// (`same_path`) and the tolerance is still the wanted one: whether they do.
    pub fn accept_passes<A: Arithmetic>(
        &mut self,
        a: &A,
        job: &mut JobState,
        same_path: bool,
        result: PassTaskResult,
    ) -> (accepted: bool)
        requires
            a.lawful(),
        ensures
            ({
                let desired = old(self).pass_tolerance_mm.greater(
                    Scalar { bits: LEAST },
                );
                let fits = same_path && old(job).lines@.len() == result.line_count && minus(
                    a,
                    result.tolerance_mm,
                    desired,
                ).absolute().at_most(Scalar { bits: EPSILON });
                &&& accepted == fits
                &&& !fits ==> *final(job) == *old(job) && *final(self) == (EditorState {
                    counting: false,
                    ..*old(self)
                })
                &&& fits ==> {
                    &&& final(job).seg_pass_counts@ == result.seg_pass_counts@
                    &&& final(job).line_pass_counts@ == result.line_pass_counts@
                    &&& *final(job) == (JobState {
                        seg_pass_counts: final(job).seg_pass_counts,
                        line_pass_counts: final(job).line_pass_counts,
                        pass_tolerance_mm: result.tolerance_mm,
                        version: if old(job).pass_tolerance_mm.equals(result.tolerance_mm)
                            && old(job).seg_pass_counts@ == result.seg_pass_counts@ && old(
                            job,
                        ).line_pass_counts@ == result.line_pass_counts@ {
                            old(job).version
                        } else {
                            next_version(old(job).version)
                        },
                        ..*old(job)
                    })
                    &&& final(self).warning@ == "Heatmap updated at "@ + fixed(
                        a,
                        result.tolerance_mm,
                        3,
                    ) + " mm"@
                    &&& *final(self) == (EditorState {
                        counting: false,
                        warning: final(self).warning,
                        ..*old(self)
                    })
                }
            }),
    {
        self.counting = false;
        let desired = normalize_pass_tolerance(self.pass_tolerance_mm);
        let tolerance = result.tolerance_mm;
        if !(same_path && job.lines.len() == result.line_count && minus(
            a,
            tolerance,
            desired,
        ).abs().le(Scalar { bits: EPSILON })) {
            return false;
        }
        let changed = !job.pass_tolerance_mm.same(tolerance) || !same_counts(
            &job.seg_pass_counts,
            &result.seg_pass_counts,
        ) || !same_counts(&job.line_pass_counts, &result.line_pass_counts);
        job.seg_pass_counts = Arc::new(result.seg_pass_counts);
        job.line_pass_counts = Arc::new(result.line_pass_counts);
        job.pass_tolerance_mm = tolerance;
        if changed {
            job.version = bump(job.version);
        }
        self.warning = millimetres_text(a, "Heatmap updated at ", tolerance, " mm");
        true
    }

    /// Takes note that no counts of passes will come.
    pub fn lose_passes(&mut self)
        ensures
            final(self).warning@ == "Heatmap task stopped unexpectedly"@,
            *final(self) == (EditorState {
                counting: false,
                warning: final(self).warning,
                ..*old(self)
            }),
    {
        self.counting = false;
        self.warning = text_of("Heatmap task stopped unexpectedly");
    }

    /// Marks the job anew if anything that its marks depend on has changed in what the frame shows:
    /// `jstate` is the job as it was when the frame began.
    pub fn sync_validation<A: Arithmetic>(
        &mut self,
        a: &A,
        job: &mut JobState,
        jstate: &JobState,
        mstate: &MachineState,
    )
        requires
            a.lawful(),
        ensures
            ({
                let tolerance = old(self).pass_tolerance_mm.greater(
                    Scalar { bits: LEAST },
                );
                if key_of(jstate.version, mstate).equals(old(self).last_soft_limit_validation) {
                    &&& *final(job) == *old(job)
                    &&& *final(self) == (EditorState {
                        pass_tolerance_mm: tolerance,
                        ..*old(self)
                    })
                } else {
                    let right = (old(job).seg_violations@, old(job).violated_lines@) == marks_of(
                        a,
                        *old(job),
                        mstate,
                    );
                    &&& (final(job).seg_violations@, final(job).violated_lines@) == marks_of(
                        a,
                        *old(job),
                        mstate,
                    )
                    &&& *final(job) == (JobState {
                        seg_violations: final(job).seg_violations,
                        violated_lines: final(job).violated_lines,
                        version: if right {
                            old(job).version
                        } else {
                            next_version(old(job).version)
                        },
                        ..*old(job)
                    })
                    &&& *final(self) == (EditorState {
                        pass_tolerance_mm: tolerance,
                        last_soft_limit_validation: key_of(final(job).version, mstate),
                        ..*old(self)
                    })
                }
            }),
    {
        self.pass_tolerance_mm = normalize_pass_tolerance(self.pass_tolerance_mm);
        let key = SoftLimitValidationKey {
            job_version: jstate.version,
            connected: mstate.connected,
            soft_limits: mstate.soft_limits,
            wco: mstate.wco,
            max_travel: mstate.max_travel,
        };
        if !key.same(self.last_soft_limit_validation) {
            let changed = recompute_soft_limit_violations(a, job, mstate);
            self.last_soft_limit_validation =
            SoftLimitValidationKey { job_version: job.version, ..key };
        }
    }

    /// Takes note of when the job was started.
    pub fn update_live_timer(&mut self, status: JobStatus, now: u64)
        ensures
            *final(self) == (EditorState {
                live_started_at: if status == JobStatus::Idle {
                    None
                } else if status == JobStatus::Running && old(self).last_live_status
                    != JobStatus::Running {
                    Some(now)
                } else {
                    old(self).live_started_at
                },
                last_live_status: status,
                ..*old(self)
            }),
    {
        if status == JobStatus::Running && self.last_live_status != JobStatus::Running {
            self.live_started_at = Some(now);
        }
        if status == JobStatus::Idle {
            self.live_started_at = None;
        }
        self.last_live_status = status;
    }

    /// What the toolbar shows.
    pub fn toolbar(&self, mstate: &MachineState, jstate: &JobState, now: u64) -> (t: Toolbar)
        ensures
            t.can_open == !self.loading,
            t.playing == self.sim_playing,
            t.play_label@ == if self.simulating && !self.sim_playing {
                "RESUME"@
            } else {
                "PLAY"@
            },
            t.can_play == (jstate.lines@.len() > 0),
            t.can_reset_sim == self.simulating,
            t.z_label@ == if self.z_locked {
                "ZL ON"@
            } else {
                "ZL"@
            },
            t.can_reset_job == (jstate.lines@.len() > 0 && jstate.status != JobStatus::Running),
            t.can_step == ready(mstate, jstate, jstate.lines@.len() > 0),
            t.start_label@ == if start_armed(self.live_start_confirm, now) {
                "START ARMED"@
            } else {
                "START"@
            },
            t.can_start == ready(mstate, jstate, jstate.lines@.len() > 0),
    {
        let has_lines = jstate.lines.len() > 0;
        Toolbar {
            can_open: !self.loading,
            playing: self.sim_playing,
            play_label: if self.simulating && !self.sim_playing {
                "RESUME"
            } else {
                "PLAY"
            },
            can_play: has_lines,
            can_reset_sim: self.simulating,
            z_label: if self.z_locked {
                "ZL ON"
            } else {
                "ZL"
            },
            can_reset_job: has_lines && jstate.status != JobStatus::Running,
            can_step: can_live_step(mstate, jstate, has_lines),
            start_label: if self.is_armed(now) {
                "START ARMED"
            } else {
                "START"
            },
            can_start: can_live_start(mstate, jstate, has_lines),
        }
    }

    fn is_armed(&self, now: u64) -> (yes: bool)
        ensures
            yes == start_armed(self.live_start_confirm, now),
    {
        match self.live_start_confirm {
            Some(at) => elapsed(now, at) < ARMED_NS,
            None => false,
        }
    }

    /// Takes a click on the button that plays and pauses the simulation.
    pub fn toggle_play(&mut self, now: u64)
        ensures
            *final(self) == if old(self).sim_playing {
                EditorState { sim_playing: false, ..*old(self) }
            } else {
                EditorState {
                    sim_playing: true,
                    sim_last_tick: now,
                    ..sim_entered(*old(self), now)
                }
            },
    {
        if self.sim_playing {
            self.sim_playing = false;
        } else {
            if !self.simulating {
                self.reset_simulation(now);
                self.simulating = true;
            }
            self.sim_playing = true;
            self.sim_last_tick = now;
        }
    }

    /// Takes a click on the button that steps the simulation by a line.
    pub fn step_simulation(&mut self, jstate: &JobState, now: u64)
        ensures
            *final(self) == sim_stepped(
                EditorState { sim_playing: false, ..sim_entered(*old(self), now) },
                jstate,
            ),
    {
        if !self.simulating {
            self.reset_simulation(now);
            self.simulating = true;
        }
        self.sim_playing = false;
        self.step_simulation_line(jstate);
    }

    fn step_simulation_line(&mut self, jstate: &JobState)
        ensures
            *final(self) == sim_stepped(*old(self), jstate),
    {
        let n: usize = jstate.segments.len();
        if self.sim_seg < n {
            let ghost entry = *self;
            let line: usize = jstate.segments[self.sim_seg].line;
            let mut seg: usize = self.sim_seg;
            proof {
                lemma_step_passes_a_line(jstate.segments@, seg as int);
            }
            while seg < n && jstate.segments[seg].line == line
                invariant
                    n == jstate.segments@.len(),
                    seg <= n,
                    line_end(jstate.segments@, seg as int, line) == line_end(
                        jstate.segments@,
                        entry.sim_seg as int,
                        line,
                    ),
                decreases n - seg,
            {
                seg = seg + 1;
            }
            self.sim_pos = jstate.segments[seg - 1].end;
            self.sim_seg = seg;
            self.sim_frac = Scalar { bits: 0 };
            self.sim_line = seg_to_line(jstate.segments.as_slice(), seg);
            if self.z_locked {
                self.sim_pos.z = Scalar { bits: 0 };
            }
        } else {
            self.sim_line = jstate.lines.len();
        }
    }

    /// Sets the simulation back to its start.
    pub fn reset_simulation(&mut self, now: u64)
        ensures
            *final(self) == sim_at_start(*old(self), now),
    {
        self.simulating = false;
        self.sim_playing = false;
        self.sim_seg = 0;
        self.sim_frac = Scalar { bits: 0 };
        self.sim_line = 0;
        self.sim_pos = Vec3::default();
        self.sim_last_tick = now;
    }

    /// How long it is since the simulation was advanced, where it plays.
    pub fn tick(&mut self, now: u64) -> (ns: Option<u64>)
        ensures
            match ns {
                Some(d) => old(self).simulating && old(self).sim_playing && d == since(
                    now,
                    old(self).sim_last_tick,
                ) && *final(self) == (EditorState { sim_last_tick: now, ..*old(self) }),
                None => !(old(self).simulating && old(self).sim_playing) && *final(self) == *old(
                    self,
                ),
            },
    {
        if !self.simulating || !self.sim_playing {
            return None;
        }
        let d = elapsed(now, self.sim_last_tick);
        self.sim_last_tick = now;
        Some(d)
    }

    /// Advances a playing simulation by `dt` seconds. It stops at its end, and at a segment that
    /// leaves the machine's travel. Nothing of the job changes.
    pub fn advance_simulation<A: Arithmetic>(&mut self, a: &A, jstate: &JobState, dt: Scalar)
        requires
            a.lawful(),
        ensures
            !(old(self).simulating && old(self).sim_playing) ==> *final(self) == *old(self),
            old(self).simulating && old(self).sim_playing ==> {
                let segments = jstate.segments@;
                let (seg, frac, stopped) = simulated(
                    a,
                    segments,
                    jstate.seg_violations@,
                    old(self).sim_seg as int,
                    old(self).sim_frac,
                    times(a, old(self).sim_feed, dt),
                );
                &&& stopped ==> final(self).warning@ == "SIM SOFT LIMIT at line "@ + decimal_of(
                    behind(segments[seg].line) as nat,
                )
                &&& *final(self) == (EditorState {
                    sim_seg: seg as usize,
                    sim_frac: frac,
                    sim_playing: !stopped && seg < segments.len(),
                    sim_pos: locked(place_at(a, segments, seg, frac), old(self).z_locked),
                    sim_line: if seg < segments.len() {
                        segments[seg].line
                    } else {
                        jstate.lines@.len() as usize
                    },
                    warning: if stopped {
                        final(self).warning
                    } else {
                        old(self).warning
                    },
                    ..*old(self)
                })
            },
    {
        if !self.simulating || !self.sim_playing {
            return;
        }
        let ghost entry = *self;
        let ghost segments = jstate.segments@;
        let ghost marks = jstate.seg_violations@;
        let n: usize = jstate.segments.len();
        let mut seg: usize = self.sim_seg;
        let mut frac = self.sim_frac;
        let mut stopped = false;
        let mut remaining = times(a, self.sim_feed, dt);
        let ghost goal = simulated(a, segments, marks, seg as int, frac, remaining);
        let zero = Scalar { bits: 0 };
        while !stopped && zero.lt(remaining) && seg < n
            invariant
                a.lawful(),
                zero == (Scalar { bits: 0 }),
                segments == jstate.segments@,
                marks == jstate.seg_violations@,
                n == segments.len(),
                !stopped ==> goal == simulated(a, segments, marks, seg as int, frac, remaining),
                stopped ==> goal == (seg as int, frac, true) && seg < n,
            decreases n - seg, rounds_left(stopped, remaining),
        {
            if seg < jstate.seg_violations.len() && jstate.seg_violations[seg] {
                stopped = true;
            } else {
                let segment = jstate.segments[seg];
                let len = segment.start.dist(a, segment.end);
                let left = times(a, minus(a, Scalar { bits: ONE }, frac), len);
                if len.lt(Scalar { bits: SHORT_SEGMENT }) || left.le(remaining) {
                    remaining = minus(a, remaining, left);
                    seg = seg + 1;
                    frac = Scalar { bits: 0 };
                } else {
                    frac = plus(a, frac, over(a, remaining, len));
                    remaining = Scalar { bits: 0 };
                }
            }
        }
        self.sim_seg = seg;
        self.sim_frac = frac;
        if stopped {
            self.sim_playing = false;
            let mut text = to_chars("SIM SOFT LIMIT at line ");
            let line: u64 = next_line(jstate.segments[seg].line) as u64;
            append(&mut text, to_chars(decimal(line).as_str()).as_slice());
            self.warning = from_chars(text.as_slice());
        }
        if seg >= n {
            self.sim_playing = false;
            self.sim_pos =
            if n > 0 {
                jstate.segments[n - 1].end
            } else {
                Vec3::default()
            };
            self.sim_line = jstate.lines.len();
        } else {
            let segment = jstate.segments[seg];
            self.sim_pos = segment.start.lerp(a, segment.end, frac);
            self.sim_line = seg_to_line(jstate.segments.as_slice(), seg);
        }
        if self.z_locked {
            self.sim_pos.z = Scalar { bits: 0 };
        }
    }

    /// Takes a click on the lock of the height.
    pub fn toggle_z_lock(&mut self, job: &mut JobState)
        ensures
            *final(self) == (EditorState { z_locked: !old(self).z_locked, ..*old(self) }),
            *final(job) == (JobState {
                z_locked: !old(self).z_locked,
                version: next_version(old(job).version),
                ..*old(job)
            }),
    {
        self.z_locked = !self.z_locked;
        job.z_locked = self.z_locked;
        job.version = bump(job.version);
    }

    /// Takes a click on the button that sets the job back.
    pub fn live_reset(&mut self, engine: &mut Engine)
        ensures
            *final(self) == (EditorState { live_start_confirm: None, ..*old(self) }),
            *final(engine) == (Engine {
                job: JobState {
                    status: JobStatus::Idle,
                    current_line: 0,
                    ..old(engine).job
                },
                ..*old(engine)
            }),
    {
        engine.reset_job();
        self.live_start_confirm = None;
    }

    /// Takes a click on the button that starts the job: whether it was started. The first click
    /// arms the button, and only a second one within three seconds starts. `mstate` is the machine
    /// as the frame shows it.
    pub fn live_start<A: Arithmetic>(
        &mut self,
        a: &A,
        engine: &mut Engine,
        mstate: &MachineState,
        now: u64,
    ) -> (started: bool)
        requires
            a.lawful(),
            old(engine).wf(),
        ensures
            final(engine).wf(),
            started == start_armed(old(self).live_start_confirm, now),
            !started ==> {
                &&& *final(engine) == *old(engine)
                &&& final(self).warning@ == if mstate.spindle.equals(Scalar { bits: 0 }) {
                    "START ARMED - spindle speed is 0; click START ARMED to run anyway"@
                } else {
                    "START ARMED - click START ARMED to stream to machine"@
                }
                &&& *final(self) == (EditorState {
                    live_start_confirm: Some(now),
                    warning: final(self).warning,
                    ..*old(self)
                })
            },
            started ==> {
                let j = final(engine).job;
                &&& final(self).warning@.len() == 0
                &&& *final(self) == (EditorState {
                    live_start_confirm: None,
                    warning: final(self).warning,
                    ..*old(self)
                })
                &&& (j.seg_violations@, j.violated_lines@) == marks_of(
                    a,
                    old(engine).job,
                    &old(engine).state,
                )
                &&& j.version == if (
                    old(engine).job.seg_violations@,
                    old(engine).job.violated_lines@,
                ) == marks_of(a, old(engine).job, &old(engine).state) {
                    old(engine).job.version
                } else {
                    next_version(old(engine).job.version)
                }
                &&& *final(engine) == (Engine {
                    job: JobState {
                        seg_violations: j.seg_violations,
                        violated_lines: j.violated_lines,
                        version: j.version,
                        status: JobStatus::Running,
                        current_line: 0,
                        ..old(engine).job
                    },
                    ..*old(engine)
                })
            },
    {
        if self.is_armed(now) {
            self.live_start_confirm = None;
            self.warning = String::new();
            engine.reset_job();
            engine.start_job(a)
        } else {
            self.live_start_confirm = Some(now);
            self.warning =
            if mstate.spindle.same(Scalar { bits: 0 }) {
                text_of("START ARMED - spindle speed is 0; click START ARMED to run anyway")
            } else {
                text_of("START ARMED - click START ARMED to stream to machine")
            };
            false
        }
    }

    /// How far the job and the simulation are.
    pub fn progress<A: Arithmetic>(&self, a: &A, jstate: &JobState) -> (p: Progress)
        requires
            a.lawful(),
        ensures
            ({
                let n = jstate.lines@.len();
                let total = if n > 0 {
                    n as int
                } else {
                    1
                };
                let live = if jstate.current_line < total {
                    jstate.current_line as int
                } else {
                    total
                };
                let sim = if self.sim_line < total {
                    self.sim_line as int
                } else {
                    total
                };
                &&& p.total == total
                &&& p.live_line == live
                &&& p.live_part == over(a, single_of(a, live as u64), single_of(a, total as u64))
                &&& p.live_text@ == fixed(a, times(a, p.live_part, Scalar { bits: HUNDRED }), 0)
                    + "%  "@ + fixed(a, jstate.total_dist, 1) + " mm"@
                &&& p.sim_line == sim
                &&& p.sim_part == over(a, single_of(a, sim as u64), single_of(a, total as u64))
                &&& p.eta_secs == to_unsigned(
                    a,
                    over(a, jstate.total_dist, self.sim_feed).greater(Scalar { bits: 0 }),
                    u64::MAX,
                )
            }),
    {
        let n: usize = jstate.lines.len();
        let total: usize = if n > 0 {
            n
        } else {
            1
        };
        let live_line = lesser_of(jstate.current_line, total);
        let sim_line = lesser_of(self.sim_line, total);
        let live_part = over(a, single_of(a, live_line as u64), single_of(a, total as u64));
        let percent = times(a, live_part, Scalar { bits: HUNDRED });
        let mut text = to_chars(show_fixed(a, percent, 0).as_str());
        append(&mut text, to_chars("%  ").as_slice());
        append(&mut text, to_chars(show_fixed(a, jstate.total_dist, 1).as_str()).as_slice());
        append(&mut text, to_chars(" mm").as_slice());
        Progress {
            total,
            live_line,
            live_part,
            live_text: from_chars(text.as_slice()),
            sim_line,
            sim_part: over(a, single_of(a, sim_line as u64), single_of(a, total as u64)),
            eta_secs: to_unsigned(
                a,
                over(a, jstate.total_dist, self.sim_feed).max(Scalar { bits: 0 }),
                u64::MAX,
            ),
        }
    }

    /// Moves the line to jump to into the job, which has `n` lines.
    pub fn clamp_jump(&mut self, n: usize)
        ensures
            *final(self) == (EditorState {
                jump_line: if old(self).jump_line == 0 && n > 0 {
                    1
                } else if old(self).jump_line > n {
                    n
                } else {
                    old(self).jump_line
                },
                ..*old(self)
            }),
    {
        if self.jump_line == 0 {
            self.jump_line = 1;
        }
        if self.jump_line > n {
            self.jump_line = n;
        }
    }

    /// Takes a click on the button that jumps to a line of the job, which has `n` lines.
    pub fn jump(&mut self, n: usize)
        requires
            n > 0,
        ensures
            *final(self) == (EditorState {
                manual_focus_line: Some(
                    if old(self).jump_line == 0 {
                        0
                    } else if old(self).jump_line <= n {
                        (old(self).jump_line - 1) as usize
                    } else {
                        (n - 1) as usize
                    },
                ),
                ..*old(self)
            }),
    {
        let at: usize = if self.jump_line == 0 {
            0
        } else {
            self.jump_line - 1
        };
        self.manual_focus_line = Some(lesser_of(at, n - 1));
    }

    /// The line that is being run, or simulated.
    pub open spec fn active(&self, job: &JobState) -> usize {
        if self.simulating {
            self.sim_line
        } else {
            job.current_line
        }
    }

    pub fn active_line(&self, jstate: &JobState) -> (line: usize)
        ensures
            line == self.active(jstate),
    {
        if self.simulating {
            self.sim_line
        } else {
            jstate.current_line
        }
    }

    /// Whether the active line is marked.
    pub open spec fn marks_active(&self, job: &JobState) -> bool {
        self.simulating || job.status == JobStatus::Running || job.current_line > 0
    }

    /// The text above the list of lines.
    pub fn header(&self, jstate: &JobState, visible: usize) -> (text: String)
        ensures
            text@ == match self.filter {
                EditorFilter::All => decimal_of(jstate.lines@.len()) + " lines  ["@,
                EditorFilter::Z => decimal_of(visible as nat) + " Z-lines  ["@,
                EditorFilter::Limits => decimal_of(visible as nat) + " limit lines  ["@,
                EditorFilter::Heat => decimal_of(visible as nat) + " repeated lines  ["@,
                EditorFilter::Rapids => decimal_of(visible as nat) + " rapid lines  ["@,
            } + decimal_of(self.active(jstate) as nat) + "]"@,
    {
        let count: usize = if self.filter == EditorFilter::All {
            jstate.lines.len()
        } else {
            visible
        };
        let label = match self.filter {
            EditorFilter::All => " lines  [",
            EditorFilter::Z => " Z-lines  [",
            EditorFilter::Limits => " limit lines  [",
            EditorFilter::Heat => " repeated lines  [",
            EditorFilter::Rapids => " rapid lines  [",
        };
        let mut text = to_chars(decimal(count as u64).as_str());
        append(&mut text, to_chars(label).as_slice());
        append(&mut text, to_chars(decimal(self.active_line(jstate) as u64).as_str()).as_slice());
        append(&mut text, to_chars("]").as_slice());
        from_chars(text.as_slice())
    }

    /// The lines of an unfiltered list that are drawn: those around the focused or the active one.
    pub fn window(&self, jstate: &JobState) -> (w: (usize, usize))
        ensures
            ({
                let center = match self.manual_focus_line {
                    Some(line) => line,
                    None => self.active(jstate),
                };
                let n = jstate.lines@.len();
                &&& w.0 == if center >= WINDOW_RADIUS {
                    center - WINDOW_RADIUS
                } else {
                    0
                }
                &&& w.1 == if center + WINDOW_RADIUS < n {
                    center + WINDOW_RADIUS
                } else {
                    n as int
                }
            }),
    {
        let center: usize = match self.manual_focus_line {
            Some(line) => line,
            None => self.active_line(jstate),
        };
        let n: usize = jstate.lines.len();
        let start: usize = if center >= WINDOW_RADIUS {
            center - WINDOW_RADIUS
        } else {
            0
        };
        let end: usize = if n > WINDOW_RADIUS && center < n - WINDOW_RADIUS {
            center + WINDOW_RADIUS
        } else {
            n
        };
        (start, end)
    }

    /// How line `i` looks.
    pub fn row(&self, jstate: &JobState, i: usize) -> (row: LineRow)
        requires
            i < jstate.lines@.len(),
        ensures
            row.current == (self.marks_active(jstate) && i == self.active(jstate)),
            row.focused == (self.manual_focus_line == Some(i)),
            row.z == has_z(jstate.lines@[i as int]@),
            row.rapid == has_rapid(jstate.segments@, i as int),
            row.badge == if self.show_heatmap && passes_of(jstate.line_pass_counts@, i as int)
                > 1 {
                Some(passes_of(jstate.line_pass_counts@, i as int))
            } else {
                None
            },
            row.ink == if row.current {
                Ink::Amber
            } else if marked(jstate.violated_lines@, i as int) {
                Ink::Red
            } else {
                Ink::Code
            },
    {
        let running = self.simulating || jstate.status == JobStatus::Running || jstate.current_line
            > 0;
        let current = running && i == self.active_line(jstate);
        let focused = match self.manual_focus_line {
            Some(line) => line == i,
            None => false,
        };
        let count: u16 = if i < jstate.line_pass_counts.len() {
            jstate.line_pass_counts[i]
        } else {
            1
        };
        let ink = if current {
            Ink::Amber
        } else if i < jstate.violated_lines.len() && jstate.violated_lines[i] {
            Ink::Red
        } else {
            Ink::Code
        };
        LineRow {
            current,
            focused,
            z: has_word(jstate.lines[i].as_str(), LETTER_Z),
            rapid: line_has_rapid(jstate, i),
            badge: if self.show_heatmap && count > 1 {
                Some(count)
            } else {
                None
            },
            ink,
        }
    }

    /// Takes a click on line `i`.
    pub fn click_row(&mut self, i: usize)
        ensures
            *final(self) == (EditorState {
                manual_focus_line: Some(i),
                jump_line: behind(i),
                ..*old(self)
            }),
    {
        self.manual_focus_line = Some(i);
        self.jump_line = next_line(i);
    }
}

} // verus!
