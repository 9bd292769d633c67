//! The decisions of the sender: what is written to the controller, and what its lines change.
//!
//! Nothing here reads, writes or waits. A method takes what has happened and gives back what is to
//! be done about it: lines and bytes for the port, lines for the log.
use std::sync::Arc;
use vstd::prelude::*;
use crate::arith::{fixed, minus, plus, show_fixed, Arithmetic, Scalar};
use crate::gcode::transform::{
    lemma_stream_follows_job, shape_of, streamed, transform_for_stream, Shape,
};
use crate::gcode::words::{lemma_strip_idempotent, strip_comments, stripped};
use crate::grbl::heightmap::{text_of, HeightMap};
use crate::grbl::parser::{parse_response, reply_of, Reply, Response, ResponseType};
use crate::grbl::queue::{fits, lemma_flush_keeps_lines, size_of, Traffic};
pub use crate::grbl::queue::SendQueue;
use crate::grbl::state::{
    bump, marks_of, next_version, recompute_soft_limit_violations, JobState, JobStatus,
    MachineState, Status, Vec3,
};
use crate::lines::append;
use crate::text::{
    decimal, decimal_of, from_chars, string_views, to_chars, trim, trimmed,
};

verus! {

/// The size of the controller's buffer.
pub const BUFFER: usize = 128;

/// The byte that holds the machine.
pub const FEED_HOLD: u8 = 0x21;

/// The byte that lets a held machine go on.
pub const CYCLE_START: u8 = 0x7e;

/// The byte that resets the controller.
pub const SOFT_RESET: u8 = 0x18;

/// The byte that asks for a status report.
pub const STATUS_QUERY: u8 = 0x3f;

/// The result of a probing move: where it ended, in machine coordinates, and whether by contact.
#[derive(Clone, Copy, Debug)]
pub struct ProbeReply {
    pub prb: Vec3,
    pub ok: bool,
}

#[derive(Clone, Copy, Debug, PartialEq, Eq, Structural)]
pub enum ProbeError {
    Busy,
    Timeout,
    NoContact,
    NotConnected,
}

impl ProbeError {
    pub open spec fn says(self) -> Seq<char> {
        match self {
            ProbeError::Busy => "probe already in flight"@,
            ProbeError::Timeout => "probe timed out"@,
            ProbeError::NoContact => "probe never triggered (wire? depth?)"@,
            ProbeError::NotConnected => "machine not connected"@,
        }
    }

    pub fn message(self) -> (out: String)
        ensures
            out@ == self.says(),
    {
        match self {
            ProbeError::Busy => text_of("probe already in flight"),
            ProbeError::Timeout => text_of("probe timed out"),
            ProbeError::NoContact => text_of("probe never triggered (wire? depth?)"),
            ProbeError::NotConnected => text_of("machine not connected"),
        }
    }
}

/// A line goes to the queue, without its comments: the queue behind it, and what can be sent. An
/// empty line goes nowhere.
pub open spec fn sent(t: Traffic, line: Seq<char>) -> (Traffic, Seq<Seq<char>>) {
    if stripped(line).len() == 0 {
        (t, Seq::empty())
    } else {
        t.enqueued(stripped(line)).flushed()
    }
}

/// Lines go to the queue, one after the other.
pub open spec fn all_sent(t: Traffic, lines: Seq<Seq<char>>) -> (Traffic, Seq<Seq<char>>)
    decreases lines.len(),
{
    if lines.len() == 0 {
        (t, Seq::empty())
    } else {
        let (u, first) = all_sent(t, lines.drop_last());
        let (v, last) = sent(u, lines.last());
        (v, first + last)
    }
}

/// What a job sends: its streamed lines with the numbers of their sources, its own lines, and
/// which of those are blocked.
pub struct StreamPlan {
    pub transformed: Vec<String>,
    pub src: Vec<usize>,
    pub lines: Arc<Vec<String>>,
    pub violated_lines: Arc<Vec<bool>>,
}

/// What the lines of a job are bent to.
pub open spec fn job_shape(job: JobState) -> Shape {
    shape_of(
        match job.heightmap {
            Some(map) => Some(&*map),
            None => None,
        },
        job.orientation,
    )
}

impl StreamPlan {
    /// Every streamed line has a source among the job's lines, in their order.
    pub open spec fn wf(&self) -> bool {
        &&& self.transformed@.len() == self.src@.len()
        &&& forall|k: int| 0 <= k < self.src@.len() ==> #[trigger] self.src@[k] < self.lines@.len()
        &&& forall|j: int, k: int|
            0 <= j <= k < self.src@.len() ==> #[trigger] self.src@[j] <= #[trigger] self.src@[k]
    }

    /// Whether line `s` of the job must not be run.
    pub open spec fn blocks(&self, s: int) -> bool {
        s < self.violated_lines@.len() && self.violated_lines@[s]
    }

    /// The plan of a job.
    pub open spec fn of<A: Arithmetic>(&self, a: &A, job: JobState) -> bool {
        &&& (string_views(self.transformed@), self.src@) == streamed(
            a,
            job_shape(job),
            string_views(job.lines@),
        )
        &&& self.lines@ == job.lines@
        &&& self.violated_lines@ == job.violated_lines@
    }
}

/// What a streaming job does next.
pub enum StreamStep {
    /// It was stopped.
    Stop,
    /// Nothing can be done yet.
    Wait,
    /// These lines are written, and the next streamed line is in turn.
    Next(Vec<String>),
    /// It may not go on, for the reason that is logged.
    Blocked(String),
    /// Everything is done.
    Finished,
}

/// Whether a job in that status does nothing more.
pub open spec fn over(status: JobStatus) -> bool {
    status == JobStatus::Idle || status == JobStatus::Complete
}

/// What streaming line `i` of the plan does. The job waits while it is paused, while the buffer
/// has no room, and at its end until everything is confirmed. A line without a command is passed
/// over, and a blocked one ends the job.
pub open spec fn streams(
    before: Engine,
    after: Engine,
    plan: &StreamPlan,
    i: int,
    step: StreamStep,
) -> bool {
    let t = before.queue.traffic();
    if over(before.job.status) {
        step is Stop && after == before
    } else if i >= plan.src@.len() {
        if t.idle() {
            &&& step is Finished
            &&& after == (Engine {
                job: JobState { status: JobStatus::Complete, ..before.job },
                ..before
            })
        } else {
            step is Wait && after == before
        }
    } else if before.job.status == JobStatus::Paused {
        step is Wait && after == before
    } else {
        let s = plan.src@[i] as int;
        let line = stripped(plan.transformed@[i]@);
        if plan.blocks(s) {
            &&& step matches StreamStep::Blocked(log) && log@ == limit_message(
                s,
                trimmed(plan.lines@[s]@),
            )
            &&& after == (Engine {
                job: JobState { status: JobStatus::Idle, ..before.job },
                ..before
            })
        } else if line.len() > 0 && !fits(t.capacity, t.in_flight, size_of(line)) {
            step is Wait && after == before
        } else {
            &&& step matches StreamStep::Next(lines) && string_views(lines@) == sent(t, line).1
            &&& after.requeued(
                Engine {
                    job: JobState { current_line: (s + 1) as usize, ..before.job },
                    ..before
                },
                sent(t, line).0,
            )
        }
    }
}

/// The commands among the first `n` streamed lines that come from line `s`, without comments.
pub open spec fn commands(lines: Seq<Seq<char>>, src: Seq<usize>, n: int, s: int) -> Seq<Seq<char>>
    decreases n,
{
    if n <= 0 {
        Seq::empty()
    } else {
        let front = commands(lines, src, n - 1, s);
        if src[n - 1] == s && stripped(lines[n - 1]).len() > 0 {
            front.push(stripped(lines[n - 1]))
        } else {
            front
        }
    }
}

/// The first line from `s` on that is blocked or has a command, or the end of the job.
pub open spec fn next_stop(
    count: int,
    violated: Seq<bool>,
    lines: Seq<Seq<char>>,
    src: Seq<usize>,
    s: int,
) -> int
    decreases count - s,
{
    if s >= count || (s < violated.len() && violated[s]) || commands(
        lines,
        src,
        src.len() as int,
        s,
    ).len() > 0 {
        s
    } else {
        next_stop(count, violated, lines, src, s + 1)
    }
}

/// The reason why line `s`, with the text `line`, is not run.
pub open spec fn limit_message(s: int, line: Seq<char>) -> Seq<char> {
    "SOFT LIMIT at line "@ + decimal_of((s + 1) as nat) + ": "@ + line
}

fn limit_text(s: usize, line: &[char]) -> (out: String)
    requires
        s < usize::MAX,
    ensures
        out@ == limit_message(s as int, line@),
{
    let mut out = to_chars("SOFT LIMIT at line ");
    append(&mut out, to_chars(decimal(s as u64 + 1).as_str()).as_slice());
    append(&mut out, to_chars(": ").as_slice());
    append(&mut out, line);
    from_chars(out.as_slice())
}

/// `label` and `text` side by side.
fn joined_text(label: &str, text: &str) -> (out: String)
    ensures
        out@ == label@ + text@,
{
    let mut out = to_chars(label);
    append(&mut out, to_chars(text).as_slice());
    from_chars(out.as_slice())
}

/// Where and how writing lines to the port failed.
pub struct WriteFailure {
    pub index: usize,
    /// Whether the line itself was written, but not its end.
    pub at_end: bool,
    pub error: String,
}

/// What is said of a failure to write `line`.
pub open spec fn write_message(line: Seq<char>, at_end: bool, error: Seq<char>) -> Seq<char> {
    (if at_end {
        "serial newline write failed for `"@
    } else {
        "serial write failed for `"@
    }) + line + "`: "@ + error
}

/// What a line from the controller leads to.
pub struct Reaction {
    /// Lines for the port.
    pub lines: Vec<String>,
    /// The result of a probing move, for whoever waits for it.
    pub reply: Option<ProbeReply>,
}

/// The machine after a reply.
pub open spec fn machine_after<A: Arithmetic>(a: &A, m: MachineState, r: Reply) -> MachineState {
    match r.resp_type {
        ResponseType::Status => {
            let wco = if r.has_wco {
                r.wco
            } else {
                m.wco
            };
            MachineState {
                status: r.status,
                wco,
                mpos: if r.has_wpos {
                    Vec3 {
                        x: plus(a, r.wpos.x, wco.x),
                        y: plus(a, r.wpos.y, wco.y),
                        z: plus(a, r.wpos.z, wco.z),
                    }
                } else if r.has_mpos {
                    r.mpos
                } else {
                    m.mpos
                },
                wpos: if r.has_wpos {
                    r.wpos
                } else if r.has_mpos {
                    Vec3 {
                        x: minus(a, r.mpos.x, wco.x),
                        y: minus(a, r.mpos.y, wco.y),
                        z: minus(a, r.mpos.z, wco.z),
                    }
                } else {
                    m.wpos
                },
                feed: r.feed,
                spindle: r.spindle,
                feed_ovr: if r.feed_ovr != 0 {
                    r.feed_ovr
                } else {
                    m.feed_ovr
                },
                spindle_ovr: if r.spindle_ovr != 0 {
                    r.spindle_ovr
                } else {
                    m.spindle_ovr
                },
                probe_active: r.has_pins && r.pins.contains('P'),
                ..m
            }
        },
        ResponseType::Alarm => MachineState {
            status: Status::Alarm,
            alarm_code: r.alarm_code,
            ..m
        },
        ResponseType::Setting => if r.setting_num == 20 {
            MachineState { soft_limits: !r.setting_val.equals(Scalar { bits: 0 }), ..m }
        } else if r.setting_num == 130 {
            MachineState { max_travel: Vec3 { x: r.setting_val, ..m.max_travel }, ..m }
        } else if r.setting_num == 131 {
            MachineState { max_travel: Vec3 { y: r.setting_val, ..m.max_travel }, ..m }
        } else if r.setting_num == 132 {
            MachineState { max_travel: Vec3 { z: r.setting_val, ..m.max_travel }, ..m }
        } else {
            m
        },
        ResponseType::Welcome => MachineState { status: Status::Idle, alarm_code: 0, ..m },
        _ => m,
    }
}

/// The job after a reply: an alarm ends it.
pub open spec fn job_after(job: JobState, r: Reply) -> JobState {
    match r.resp_type {
        ResponseType::Alarm => JobState { status: JobStatus::Idle, ..job },
        _ => job,
    }
}

/// The queue after a reply, and the lines that can then be sent: every line is answered, by a
/// confirmation or by an error, and an alarm forgets them all.
pub open spec fn queue_after(t: Traffic, r: Reply) -> (Traffic, Seq<Seq<char>>) {
    match r.resp_type {
        ResponseType::Ack | ResponseType::Error => t.acked().flushed(),
        ResponseType::Alarm => (t.cleared(), Seq::empty()),
        _ => (t, Seq::empty()),
    }
}

/// The sender.
pub struct Engine {
    pub state: MachineState,
    pub job: JobState,
    pub queue: SendQueue,
    /// Whether there is a port to write to.
    pub port_open: bool,
    /// Whether a probing move is under way.
    pub probe_in_flight: bool,
    /// Whether someone waits for the result of a probing move.
    pub probe_awaited: bool,
}

impl Engine {
    pub open spec fn wf(&self) -> bool {
        self.queue.wf() && self.job.wf()
    }

    /// Nothing but the queue differs from `before`, and it holds `t`.
    pub open spec fn requeued(&self, before: Engine, t: Traffic) -> bool {
        &&& *self == (Engine { queue: self.queue, ..before })
        &&& self.queue.wf()
        &&& self.queue.traffic() == t
    }

    pub fn new(state: MachineState, job: JobState) -> (e: Engine)
        requires
            job.wf(),
        ensures
            e.wf(),
            e.state == state,
            e.job == job,
            e.queue.traffic() == (Traffic {
                capacity: BUFFER,
                pending: Seq::empty(),
                in_flight: Seq::empty(),
            }),
            !e.port_open && !e.probe_in_flight && !e.probe_awaited,
    {
        Engine {
            state,
            job,
            queue: SendQueue::new(BUFFER),
            port_open: false,
            probe_in_flight: false,
            probe_awaited: false,
        }
    }

    /// Takes the outcome of opening a port. An open port starts with an empty queue and a request
    /// for the settings.
    pub fn connect(&mut self, port: &str, baud: u32, opened: Result<(), String>) -> (lines: Vec<
        String,
    >)
        requires
            old(self).wf(),
        ensures
            final(self).wf(),
            match opened {
                Ok(()) => {
                    let (t, out) = sent(old(self).queue.traffic().cleared(), "$$"@);
                    &&& final(self).state.port@ == port@
                    &&& final(self).state.last_error@ == Seq::<char>::empty()
                    &&& *final(self) == (Engine {
                        state: MachineState {
                            port: final(self).state.port,
                            baud,
                            connected: true,
                            last_error: final(self).state.last_error,
                            ..old(self).state
                        },
                        queue: final(self).queue,
                        port_open: true,
                        ..*old(self)
                    })
                    &&& final(self).queue.traffic() == t
                    &&& string_views(lines@) == out
                },
                Err(e) => {
                    &&& final(self).state.last_error@ == "failed to connect to "@ + port@ + ": "@
                        + e@
                    &&& *final(self) == (Engine {
                        state: MachineState {
                            last_error: final(self).state.last_error,
                            ..old(self).state
                        },
                        ..*old(self)
                    })
                    &&& lines@.len() == 0
                },
            },
    {
        match opened {
            Err(e) => {
                let mut text = to_chars("failed to connect to ");
                append(&mut text, to_chars(port).as_slice());
                append(&mut text, to_chars(": ").as_slice());
                append(&mut text, to_chars(e.as_str()).as_slice());
                self.state.last_error = from_chars(text.as_slice());
                Vec::new()
            },
            Ok(()) => {
                self.port_open = true;
                self.queue.clear();
                self.state.port = text_of(port);
                self.state.baud = baud;
                self.state.connected = true;
                self.state.last_error = String::new();
                self.send("$$")
            },
        }
    }

    /// Forgets the port and what was to be sent.
    pub fn disconnect(&mut self)
        requires
            old(self).wf(),
        ensures
            final(self).wf(),
            *final(self) == (Engine {
                state: MachineState {
                    connected: false,
                    status: Status::Disconnected,
                    ..old(self).state
                },
                queue: final(self).queue,
                port_open: false,
                ..*old(self)
            }),
            final(self).queue.traffic() == old(self).queue.traffic().cleared(),
    {
        self.port_open = false;
        self.queue.clear();
        self.state.connected = false;
        self.state.status = Status::Disconnected;
    }

    /// Takes note that the port has failed: a line for the log.
    pub fn serial_error(&mut self, msg: &str) -> (log: String)
        requires
            old(self).wf(),
        ensures
            final(self).wf(),
            log@ == "!! "@ + msg@,
            final(self).state.last_error@ == msg@,
            *final(self) == (Engine {
                state: MachineState {
                    connected: false,
                    status: Status::Disconnected,
                    last_error: final(self).state.last_error,
                    ..old(self).state
                },
                queue: final(self).queue,
                port_open: false,
                ..*old(self)
            }),
            final(self).queue.traffic() == old(self).queue.traffic().cleared(),
    {
        self.disconnect();
        self.state.last_error = text_of(msg);
        joined_text("!! ", msg)
    }

    /// Takes the outcome of writing lines to the port: lines for the log.
    pub fn write_to_serial(&mut self, lines: &[String], failure: Option<WriteFailure>) -> (log: Vec<
        String,
    >)
        requires
            old(self).wf(),
            failure matches Some(f) ==> f.index < lines.len(),
        ensures
            final(self).wf(),
            match failure {
                None => {
                    &&& *final(self) == *old(self)
                    &&& string_views(log@) == string_views(lines@).map_values(
                        |l: Seq<char>| "> "@ + l,
                    )
                },
                Some(f) => {
                    let msg = write_message(lines@[f.index as int]@, f.at_end, f.error@);
                    &&& string_views(log@) == string_views(lines@).map_values(
                        |l: Seq<char>| "> "@ + l,
                    ).push("!! "@ + msg)
                    &&& final(self).state.last_error@ == msg
                    &&& *final(self) == (Engine {
                        state: MachineState {
                            connected: false,
                            status: Status::Disconnected,
                            last_error: final(self).state.last_error,
                            ..old(self).state
                        },
                        queue: final(self).queue,
                        port_open: false,
                        ..*old(self)
                    })
                    &&& final(self).queue.traffic() == old(self).queue.traffic().cleared()
                },
            },
    {
        let ghost all = string_views(lines@).map_values(|l: Seq<char>| "> "@ + l);
        let mut log: Vec<String> = Vec::new();
        assert(string_views(log@) == all.take(0));
        for i in 0..lines.len()
            invariant
                all == string_views(lines@).map_values(|l: Seq<char>| "> "@ + l),
                string_views(log@) == all.take(i as int),
        {
            let ghost before = string_views(log@);
            log.push(joined_text("> ", lines[i].as_str()));
            assert(string_views(log@) == before.push(all[i as int]));
            assert(all.take(i + 1) == all.take(i as int).push(all[i as int]));
        }
        assert(all.take(lines.len() as int) == all);
        if let Some(f) = failure {
            let mut msg = to_chars(
                if f.at_end {
                    "serial newline write failed for `"
                } else {
                    "serial write failed for `"
                },
            );
            append(&mut msg, to_chars(lines[f.index].as_str()).as_slice());
            append(&mut msg, to_chars("`: ").as_slice());
            append(&mut msg, to_chars(f.error.as_str()).as_slice());
            let msg = from_chars(msg.as_slice());
            let line = self.serial_error(msg.as_str());
            let ghost before = string_views(log@);
            log.push(line);
            assert(string_views(log@) == before.push(line@));
        }
        log
    }

    /// Puts a line into the queue: the lines that can now be written.
    pub fn send(&mut self, line: &str) -> (lines: Vec<String>)
        requires
            old(self).wf(),
        ensures
            final(self).requeued(*old(self), sent(old(self).queue.traffic(), line@).0),
            string_views(lines@) == sent(old(self).queue.traffic(), line@).1,
    {
        let line = strip_comments(line);
        if line.as_str().is_empty() {
            let lines: Vec<String> = Vec::new();
            assert(string_views(lines@) == Seq::<Seq<char>>::empty());
            return lines;
        }
        self.queue.enqueue(line);
        self.queue.flush()
    }

    /// Takes note that a line was answered: the lines that can now be written.
    pub fn ack(&mut self) -> (lines: Vec<String>)
        requires
            old(self).wf(),
        ensures
            final(self).requeued(*old(self), old(self).queue.traffic().acked().flushed().0),
            string_views(lines@) == old(self).queue.traffic().acked().flushed().1,
    {
        self.queue.ack();
        self.queue.flush()
    }

    /// A byte that the controller takes out of turn: it is written where there is a port.
    pub fn realtime(&self, b: u8) -> (byte: Option<u8>)
        ensures
            byte == if self.port_open {
                Some(b)
            } else {
                None
            },
    {
        if self.port_open {
            Some(b)
        } else {
            None
        }
    }

    pub fn feed_hold(&self) -> (byte: Option<u8>)
        ensures
            byte == if self.port_open {
                Some(FEED_HOLD)
            } else {
                None
            },
    {
        self.realtime(FEED_HOLD)
    }

    pub fn resume(&self) -> (byte: Option<u8>)
        ensures
            byte == if self.port_open {
                Some(CYCLE_START)
            } else {
                None
            },
    {
        self.realtime(CYCLE_START)
    }

    /// Resets the controller and forgets what was to be sent.
    pub fn soft_reset(&mut self) -> (byte: Option<u8>)
        requires
            old(self).wf(),
        ensures
            final(self).requeued(*old(self), old(self).queue.traffic().cleared()),
            byte == if old(self).port_open {
                Some(SOFT_RESET)
            } else {
                None
            },
    {
        let byte = self.realtime(SOFT_RESET);
        self.queue.clear();
        byte
    }

    /// Starts the job from its first line, unless it is under way: whether it was started. Its
    /// marks are right then.
    pub fn start_job<A: Arithmetic>(&mut self, a: &A) -> (started: bool)
        requires
            a.lawful(),
            old(self).wf(),
        ensures
            final(self).wf(),
            started == !(old(self).job.status == JobStatus::Running || old(self).job.status
                == JobStatus::Paused),
            !started ==> *final(self) == *old(self),
            started ==> {
                let j = final(self).job;
                &&& (j.seg_violations@, j.violated_lines@) == marks_of(
                    a,
                    old(self).job,
                    &old(self).state,
                )
                &&& j.version == if (old(self).job.seg_violations@, old(self).job.violated_lines@)
                    == marks_of(a, old(self).job, &old(self).state) {
                    old(self).job.version
                } else {
                    next_version(old(self).job.version)
                }
                &&& *final(self) == (Engine {
                    job: JobState {
                        seg_violations: j.seg_violations,
                        violated_lines: j.violated_lines,
                        version: j.version,
                        status: JobStatus::Running,
                        current_line: 0,
                        ..old(self).job
                    },
                    ..*old(self)
                })
            },
    {
        if self.job.status == JobStatus::Running || self.job.status == JobStatus::Paused {
            return false;
        }
        let changed = recompute_soft_limit_violations(a, &mut self.job, &self.state);
        self.job.status = JobStatus::Running;
        self.job.current_line = 0;
        true
    }

    /// Pauses a running job: the byte for the port.
    pub fn pause_job(&mut self) -> (byte: Option<u8>)
        ensures
            *final(self) == (Engine {
                job: JobState {
                    status: if old(self).job.status == JobStatus::Running {
                        JobStatus::Paused
                    } else {
                        old(self).job.status
                    },
                    ..old(self).job
                },
                ..*old(self)
            }),
            byte == if old(self).job.status == JobStatus::Running && old(self).port_open {
                Some(FEED_HOLD)
            } else {
                None
            },
    {
        if self.job.status == JobStatus::Running {
            self.job.status = JobStatus::Paused;
            self.feed_hold()
        } else {
            None
        }
    }

    /// Lets a paused job go on: the byte for the port.
    pub fn resume_job(&mut self) -> (byte: Option<u8>)
        ensures
            *final(self) == (Engine {
                job: JobState {
                    status: if old(self).job.status == JobStatus::Paused {
                        JobStatus::Running
                    } else {
                        old(self).job.status
                    },
                    ..old(self).job
                },
                ..*old(self)
            }),
            byte == if old(self).job.status == JobStatus::Paused && old(self).port_open {
                Some(CYCLE_START)
            } else {
                None
            },
    {
        if self.job.status == JobStatus::Paused {
            self.job.status = JobStatus::Running;
            self.resume()
        } else {
            None
        }
    }

    /// Ends the job and resets the controller: the byte for the port.
    pub fn stop_job(&mut self) -> (byte: Option<u8>)
        requires
            old(self).wf(),
        ensures
            final(self).requeued(
                Engine {
                    job: JobState { status: JobStatus::Idle, ..old(self).job },
                    ..*old(self)
                },
                old(self).queue.traffic().cleared(),
            ),
            byte == if old(self).port_open {
                Some(SOFT_RESET)
            } else {
                None
            },
    {
        self.job.status = JobStatus::Idle;
        self.soft_reset()
    }

    /// Sets the job back to its first line.
    pub fn reset_job(&mut self)
        ensures
            *final(self) == (Engine {
                job: JobState { status: JobStatus::Idle, current_line: 0, ..old(self).job },
                ..*old(self)
            }),
    {
        self.job.current_line = 0;
        self.job.status = JobStatus::Idle;
    }

    /// What the job will send.
    pub fn plan_job<A: Arithmetic>(&self, a: &A) -> (plan: StreamPlan)
        requires
            a.lawful(),
            self.wf(),
        ensures
            plan.wf(),
            plan.of(a, self.job),
    {
        let map: Option<&HeightMap> = match &self.job.heightmap {
            Some(map) => Some(&**map),
            None => None,
        };
        let count: usize = self.job.lines.len();
        assert(string_views(self.job.lines@).len() == count);
        let (transformed, src) = transform_for_stream(
            a,
            self.job.lines.as_slice(),
            map,
            self.job.orientation,
        );
        proof {
            assert(shape_of(map, self.job.orientation) == job_shape(self.job));
            lemma_stream_follows_job(a, job_shape(self.job), string_views(self.job.lines@));
        }
        StreamPlan {
            transformed,
            src,
            lines: self.job.lines.clone(),
            violated_lines: self.job.violated_lines.clone(),
        }
    }
}

/// No line of the list that is not from `s` adds to its commands.
proof fn lemma_commands_skip(lines: Seq<Seq<char>>, src: Seq<usize>, from: int, to: int, s: int)
    requires
        0 <= from <= to,
        forall|k: int| from <= k < to ==> #[trigger] src[k] != s,
    ensures
        commands(lines, src, to, s) == commands(lines, src, from, s),
    decreases to - from,
{
    if from < to {
        lemma_commands_skip(lines, src, from, to - 1, s);
        assert(src[to - 1] != s);
    }
}

impl Engine {
    /// Does what is next for the streaming job, `i` lines of whose plan are done.
    pub fn stream_next(&mut self, plan: &StreamPlan, i: usize) -> (step: StreamStep)
        requires
            old(self).wf(),
            plan.wf(),
        ensures
            final(self).wf(),
            streams(*old(self), *final(self), plan, i as int, step),
    {
        if self.job.status == JobStatus::Idle || self.job.status == JobStatus::Complete {
            return StreamStep::Stop;
        }
        if i >= plan.src.len() {
            if self.queue.is_idle() {
                self.job.status = JobStatus::Complete;
                return StreamStep::Finished;
            }
            return StreamStep::Wait;
        }
        if self.job.status == JobStatus::Paused {
            return StreamStep::Wait;
        }
        let source: usize = plan.src[i];
        let count: usize = plan.lines.len();
        if source < plan.violated_lines.len() && plan.violated_lines[source] {
            let text = to_chars(plan.lines[source].as_str());
            let log = limit_text(source, trim(text.as_slice()));
            self.job.status = JobStatus::Idle;
            return StreamStep::Blocked(log);
        }
        let line = strip_comments(plan.transformed[i].as_str());
        proof {
            lemma_strip_idempotent(plan.transformed@[i as int]@);
        }
        if !line.as_str().is_empty() && !self.queue.has_space_for(line.as_str().len()) {
            return StreamStep::Wait;
        }
        self.job.current_line = source + 1;
        let lines = self.send(line.as_str());
        StreamStep::Next(lines)
    }

    /// Runs the next line of a job that is not running: the lines that can be written, and the
    /// reason if the line is blocked. Lines without a command are passed over.
    pub fn step_line<A: Arithmetic>(&mut self, a: &A) -> (out: (Vec<String>, Option<String>))
        requires
            a.lawful(),
            old(self).wf(),
        ensures
            final(self).wf(),
            old(self).job.status == JobStatus::Running ==> *final(self) == *old(self)
                && out.0@.len() == 0 && out.1 is None,
            old(self).job.status != JobStatus::Running ==> {
                let job = old(self).job;
                let count = job.lines@.len() as int;
                let (lines, src) = streamed(a, job_shape(job), string_views(job.lines@));
                let s = next_stop(
                    count,
                    job.violated_lines@,
                    lines,
                    src,
                    job.current_line as int,
                );
                let t = old(self).queue.traffic();
                if s >= count {
                    &&& final(self).requeued(
                        Engine { job: JobState { current_line: s as usize, ..job }, ..*old(self) },
                        t,
                    )
                    &&& out.0@.len() == 0
                    &&& out.1 is None
                } else if s < job.violated_lines@.len() && job.violated_lines@[s] {
                    &&& final(self).requeued(
                        Engine { job: JobState { current_line: s as usize, ..job }, ..*old(self) },
                        t,
                    )
                    &&& out.0@.len() == 0
                    &&& out.1 matches Some(log) && log@ == limit_message(s, "blocked"@)
                } else {
                    let now = commands(lines, src, src.len() as int, s);
                    &&& final(self).requeued(
                        Engine {
                            job: JobState { current_line: (s + 1) as usize, ..job },
                            ..*old(self)
                        },
                        all_sent(t, now).0,
                    )
                    &&& string_views(out.0@) == all_sent(t, now).1
                    &&& out.1 is None
                }
            },
    {
        if self.job.status == JobStatus::Running {
            return (Vec::new(), None);
        }
        let plan = self.plan_job(a);
        let ghost entry = *self;
        let ghost t = self.queue.traffic();
        let ghost lines = string_views(plan.transformed@);
        let ghost src = plan.src@;
        let ghost violated = plan.violated_lines@;
        let count: usize = plan.lines.len();
        let n: usize = plan.src.len();
        let mut k: usize = 0;
        loop
            invariant
                self.wf(),
                plan.wf(),
                plan.of(a, entry.job),
                count == plan.lines@.len(),
                n == plan.src@.len(),
                lines == string_views(plan.transformed@),
                src == plan.src@,
                violated == plan.violated_lines@,
                *self == (Engine {
                    job: JobState { current_line: self.job.current_line, ..entry.job },
                    ..entry
                }),
                t == self.queue.traffic(),
                entry == *old(self),
                entry.job.status != JobStatus::Running,
                k <= n,
                forall|j: int|
                    0 <= j < k && self.job.current_line < count ==> #[trigger] src[j]
                        < self.job.current_line,
                next_stop(count as int, violated, lines, src, entry.job.current_line as int)
                    == next_stop(count as int, violated, lines, src, self.job.current_line as int),
            decreases count - self.job.current_line,
        {
            let source: usize = self.job.current_line;
            if source >= count {
                return (Vec::new(), None);
            }
            if source < plan.violated_lines.len() && plan.violated_lines[source] {
                let word = to_chars("blocked");
                return (Vec::new(), Some(limit_text(source, word.as_slice())));
            }
            while k < n && plan.src[k] < source
                invariant
                    k <= n,
                    n == plan.src@.len(),
                    src == plan.src@,
                    forall|j: int| 0 <= j < k ==> #[trigger] src[j] < source,
                decreases n - k,
            {
                k = k + 1;
            }
            let ghost first = k as int;
            proof {
                lemma_commands_skip(lines, src, 0, k as int, source as int);
            }
            self.job.current_line = source + 1;
            let mut out: Vec<String> = Vec::new();
            let mut sent_any = false;
            assert(string_views(out@) == Seq::<Seq<char>>::empty());
            assert(commands(lines, src, k as int, source as int) == Seq::<Seq<char>>::empty());
            while k < n && plan.src[k] == source
                invariant
                    plan.wf(),
                    self.wf(),
                    k <= n,
                    n == plan.src@.len(),
                    src == plan.src@,
                    lines == string_views(plan.transformed@),
                    forall|j: int| 0 <= j < k ==> #[trigger] src[j] <= source,
                    first <= k,
                    first < k ==> src[first] == source,
                    source < count,
                    *self == (Engine {
                        job: JobState { current_line: (source + 1) as usize, ..entry.job },
                        queue: self.queue,
                        ..entry
                    }),
                    sent_any == (commands(lines, src, k as int, source as int).len() > 0),
                    !sent_any ==> self.queue == entry.queue,
                    self.queue.traffic() == all_sent(
                        t,
                        commands(lines, src, k as int, source as int),
                    ).0,
                    string_views(out@) == all_sent(
                        t,
                        commands(lines, src, k as int, source as int),
                    ).1,
                decreases n - k,
            {
                let ghost now = commands(lines, src, k as int, source as int);
                assert(lines[k as int] == plan.transformed@[k as int]@);
                let line = strip_comments(plan.transformed[k].as_str());
                if !line.as_str().is_empty() {
                    let ghost before = string_views(out@);
                    let more = self.send(line.as_str());
                    append_lines(&mut out, more);
                    sent_any = true;
                    proof {
                        lemma_strip_idempotent(lines[k as int]);
                        assert(now.push(line@).drop_last() == now);
                    }
                }
                k = k + 1;
            }
            proof {
                assert forall|j: int| k <= j < n implies #[trigger] src[j] != source by {
                    assert(src[k as int] <= src[j]);
                    assert(first < k ==> src[first] <= src[k as int]);
                }
                lemma_commands_skip(lines, src, k as int, n as int, source as int);
            }
            if sent_any {
                return (out, None);
            }
        }
    }
}

/// Adds `more` at the end of `out`.
fn append_lines(out: &mut Vec<String>, more: Vec<String>)
    ensures
        string_views(final(out)@) == string_views(old(out)@) + string_views(more@),
{
    let ghost before = string_views(out@);
    let ghost all = string_views(more@);
    assert(before + all.take(0) == before);
    for i in 0..more.len()
        invariant
            all == string_views(more@),
            string_views(out@) == before + all.take(i as int),
    {
        let ghost done = string_views(out@);
        out.push(more[i].clone());
        assert(string_views(out@) == done.push(all[i as int]));
        assert(all.take(i + 1) == all.take(i as int).push(all[i as int]));
    }
    assert(all.take(more.len() as int) == all);
}

/// The move to a height.
pub open spec fn retract_line<A: Arithmetic>(a: &A, safe_z: Scalar) -> Seq<char> {
    "G90 G21 G0 Z"@ + fixed(a, safe_z, 3)
}

/// The move to the place of a probing.
pub open spec fn approach_line<A: Arithmetic>(a: &A, x: Scalar, y: Scalar, safe_z: Scalar) -> Seq<
    char,
> {
    "G90 G21 G0 X"@ + fixed(a, x, 3) + " Y"@ + fixed(a, y, 3) + " Z"@ + fixed(a, safe_z, 3)
}

/// The probing move, which raises no alarm where it meets nothing.
pub open spec fn plunge_line<A: Arithmetic>(a: &A, max_depth: Scalar, feed: Scalar) -> Seq<char> {
    "G38.3 Z-"@ + fixed(a, max_depth, 3) + " F"@ + fixed(a, feed, 1)
}

/// The text of the move to a height.
pub fn retract_text<A: Arithmetic>(a: &A, safe_z: Scalar) -> (line: String)
    requires
        a.lawful(),
    ensures
        line@ == retract_line(a, safe_z),
{
    joined_text("G90 G21 G0 Z", show_fixed(a, safe_z, 3).as_str())
}

/// The text of the move to the place of a probing.
pub fn approach_text<A: Arithmetic>(a: &A, x: Scalar, y: Scalar, safe_z: Scalar) -> (line: String)
    requires
        a.lawful(),
    ensures
        line@ == approach_line(a, x, y, safe_z),
{
    let mut line = to_chars("G90 G21 G0 X");
    append(&mut line, to_chars(show_fixed(a, x, 3).as_str()).as_slice());
    append(&mut line, to_chars(" Y").as_slice());
    append(&mut line, to_chars(show_fixed(a, y, 3).as_str()).as_slice());
    append(&mut line, to_chars(" Z").as_slice());
    append(&mut line, to_chars(show_fixed(a, safe_z, 3).as_str()).as_slice());
    from_chars(line.as_slice())
}

fn plunge_text<A: Arithmetic>(a: &A, max_depth: Scalar, feed: Scalar) -> (line: String)
    requires
        a.lawful(),
    ensures
        line@ == plunge_line(a, max_depth, feed),
{
    let mut line = to_chars("G38.3 Z-");
    append(&mut line, to_chars(show_fixed(a, max_depth, 3).as_str()).as_slice());
    append(&mut line, to_chars(" F").as_slice());
    append(&mut line, to_chars(show_fixed(a, feed, 1).as_str()).as_slice());
    from_chars(line.as_slice())
}

/// The height that a probing found, in work coordinates: none, if no reply came in time or the
/// probe met nothing.
pub open spec fn probed_height<A: Arithmetic>(a: &A, wco: Vec3, reply: Option<ProbeReply>) -> Result<
    Scalar,
    ProbeError,
> {
    match reply {
        None => Err(ProbeError::Timeout),
        Some(r) => if r.ok {
            Ok(minus(a, r.prb.z, wco.z))
        } else {
            Err(ProbeError::NoContact)
        },
    }
}

impl Engine {
    /// Begins a probing at `(x, y)`: the lines that can be written, and why none is begun. It goes
    /// there at the safe height and then down, to no more than `max_depth` below zero. Where no
    /// probing can be begun, the machine is sent up to the safe height all the same.
    pub fn probe_at<A: Arithmetic>(
        &mut self,
        a: &A,
        x: Scalar,
        y: Scalar,
        safe_z: Scalar,
        max_depth: Scalar,
        feed: Scalar,
    ) -> (out: (Vec<String>, Result<(), ProbeError>))
        requires
            a.lawful(),
            old(self).wf(),
        ensures
            final(self).wf(),
            match out.1 {
                Err(e) => {
                    let (t, all) = sent(old(self).queue.traffic(), retract_line(a, safe_z));
                    &&& e == ProbeError::NotConnected && !old(self).state.connected || e
                        == ProbeError::Busy && old(self).state.connected && old(
                        self,
                    ).probe_in_flight
                    &&& final(self).requeued(*old(self), t)
                    &&& string_views(out.0@) == all
                },
                Ok(()) => {
                    let (t, all) = all_sent(
                        old(self).queue.traffic(),
                        seq![approach_line(a, x, y, safe_z), plunge_line(a, max_depth, feed)],
                    );
                    &&& old(self).state.connected && !old(self).probe_in_flight
                    &&& final(self).requeued(
                        Engine { probe_in_flight: true, probe_awaited: true, ..*old(self) },
                        t,
                    )
                    &&& string_views(out.0@) == all
                },
            },
    {
        if !self.state.connected {
            let line = retract_text(a, safe_z);
            return (self.send(line.as_str()), Err(ProbeError::NotConnected));
        }
        if self.probe_in_flight {
            let line = retract_text(a, safe_z);
            return (self.send(line.as_str()), Err(ProbeError::Busy));
        }
        self.probe_in_flight = true;
        self.probe_awaited = true;
        let ghost t = self.queue.traffic();
        let approach = approach_text(a, x, y, safe_z);
        let plunge = plunge_text(a, max_depth, feed);
        let mut lines = self.send(approach.as_str());
        let more = self.send(plunge.as_str());
        append_lines(&mut lines, more);
        proof {
            let both = seq![approach@, plunge@];
            assert(both.drop_last() == seq![approach@]);
            assert(seq![approach@].drop_last() == Seq::<Seq<char>>::empty());
            reveal_with_fuel(all_sent, 3);
            assert(Seq::<Seq<char>>::empty() + sent(t, approach@).1 == sent(t, approach@).1);
        }
        (lines, Ok(()))
    }

    /// Ends a probing, whatever came of it: the machine goes up to the safe height. The lines that
    /// can be written, and the height that was found.
    pub fn probe_done<A: Arithmetic>(
        &mut self,
        a: &A,
        safe_z: Scalar,
        reply: Option<ProbeReply>,
    ) -> (out: (Vec<String>, Result<Scalar, ProbeError>))
        requires
            a.lawful(),
            old(self).wf(),
        ensures
            final(self).requeued(
                Engine { probe_in_flight: false, probe_awaited: false, ..*old(self) },
                sent(old(self).queue.traffic(), retract_line(a, safe_z)).0,
            ),
            string_views(out.0@) == sent(old(self).queue.traffic(), retract_line(a, safe_z)).1,
            out.1 == probed_height(a, old(self).state.wco, reply),
    {
        self.probe_awaited = false;
        let line = retract_text(a, safe_z);
        let lines = self.send(line.as_str());
        self.probe_in_flight = false;
        let height = match reply {
            None => Err(ProbeError::Timeout),
            Some(r) => if r.ok {
                Ok(minus(a, r.prb.z, self.state.wco.z))
            } else {
                Err(ProbeError::NoContact)
            },
        };
        (lines, height)
    }

    /// Takes note of what the controller said.
    pub fn apply_response<A: Arithmetic>(&mut self, a: &A, r: &Response) -> (out: Reaction)
        requires
            a.lawful(),
            old(self).wf(),
        ensures
            final(self).wf(),
            final(self).requeued(
                Engine {
                    state: machine_after(a, old(self).state, r.reply()),
                    job: job_after(old(self).job, r.reply()),
                    ..*old(self)
                },
                queue_after(old(self).queue.traffic(), r.reply()).0,
            ),
            string_views(out.lines@) == queue_after(old(self).queue.traffic(), r.reply()).1,
            out.reply == if r.resp_type == ResponseType::Probe && old(self).probe_awaited {
                Some(ProbeReply { prb: r.prb, ok: r.probe_ok })
            } else {
                None
            },
    {
        let mut lines: Vec<String> = Vec::new();
        let mut reply: Option<ProbeReply> = None;
        assert(string_views(lines@) == Seq::<Seq<char>>::empty());
        update_machine(a, &mut self.state, r);
        match r.resp_type {
            ResponseType::Ack | ResponseType::Error => {
                lines = self.ack();
            },
            ResponseType::Alarm => {
                self.job.status = JobStatus::Idle;
                self.queue.clear();
            },
            ResponseType::Probe => {
                if self.probe_awaited {
                    reply = Some(ProbeReply { prb: r.prb, ok: r.probe_ok });
                }
            },
            _ => {},
        }
        Reaction { lines, reply }
    }

    /// Takes a line as it was read from the port: nothing if it is blank, else what it leads to
    /// and the line for the log.
    pub fn receive<A: Arithmetic>(&mut self, a: &A, raw: &str) -> (out: Option<(Reaction, String)>)
        requires
            a.lawful(),
            old(self).wf(),
        ensures
            final(self).wf(),
            match out {
                None => trimmed(raw@).len() == 0 && *final(self) == *old(self),
                Some((reaction, log)) => {
                    let r = reply_of(a, trimmed(raw@));
                    &&& log@ == trimmed(raw@)
                    &&& log@.len() > 0
                    &&& final(self).requeued(
                        Engine {
                            state: machine_after(a, old(self).state, r),
                            job: job_after(old(self).job, r),
                            ..*old(self)
                        },
                        queue_after(old(self).queue.traffic(), r).0,
                    )
                    &&& string_views(reaction.lines@) == queue_after(
                        old(self).queue.traffic(),
                        r,
                    ).1
                    &&& reaction.reply == if r.resp_type == ResponseType::Probe && old(
                        self,
                    ).probe_awaited {
                        Some(ProbeReply { prb: r.prb, ok: r.probe_ok })
                    } else {
                        None
                    }
                },
            },
    {
        let chars = to_chars(raw);
        let line = from_chars(trim(chars.as_slice()));
        if line.as_str().is_empty() {
            return None;
        }
        let r = parse_response(a, line.as_str());
        let reaction = self.apply_response(a, &r);
        Some((reaction, line))
    }

    /// Attaches a height map to the job.
    pub fn attach_map(&mut self, map: HeightMap)
        requires
            old(self).wf(),
            map.wf(),
        ensures
            final(self).wf(),
            final(self).job.heightmap matches Some(m) && *m == map,
            *final(self) == (Engine {
                job: JobState {
                    heightmap: final(self).job.heightmap,
                    version: next_version(old(self).job.version),
                    ..old(self).job
                },
                ..*old(self)
            }),
    {
        self.job.heightmap = Some(Arc::new(map));
        self.job.version = bump(self.job.version);
    }

    /// Takes the height map away from the job.
    pub fn clear_map(&mut self)
        requires
            old(self).wf(),
        ensures
            final(self).wf(),
            *final(self) == (Engine {
                job: JobState {
                    heightmap: None,
                    version: next_version(old(self).job.version),
                    ..old(self).job
                },
                ..*old(self)
            }),
    {
        self.job.heightmap = None;
        self.job.version = bump(self.job.version);
    }
}

/// Takes over what a report says.
fn update_status<A: Arithmetic>(a: &A, state: &mut MachineState, r: &Response)
    requires
        a.lawful(),
        r.resp_type == ResponseType::Status,
    ensures
        *final(state) == machine_after(a, *old(state), r.reply()),
{
    state.status = r.status;
    if r.has_wco {
        state.wco = r.wco;
    }
    let wco = state.wco;
    if r.has_mpos {
        state.mpos = r.mpos;
        state.wpos =
        Vec3 {
            x: minus(a, r.mpos.x, wco.x),
            y: minus(a, r.mpos.y, wco.y),
            z: minus(a, r.mpos.z, wco.z),
        };
    }
    if r.has_wpos {
        state.wpos = r.wpos;
        state.mpos =
        Vec3 {
            x: plus(a, r.wpos.x, wco.x),
            y: plus(a, r.wpos.y, wco.y),
            z: plus(a, r.wpos.z, wco.z),
        };
    }
    state.feed = r.feed;
    state.spindle = r.spindle;
    if r.feed_ovr != 0 {
        state.feed_ovr = r.feed_ovr;
    }
    if r.spindle_ovr != 0 {
        state.spindle_ovr = r.spindle_ovr;
    }
    state.probe_active = r.has_pins && has_char(r.pins.as_str(), 'P');
}

/// Takes over what the controller said of itself.
fn update_machine<A: Arithmetic>(a: &A, state: &mut MachineState, r: &Response)
    requires
        a.lawful(),
    ensures
        *final(state) == machine_after(a, *old(state), r.reply()),
{
    match r.resp_type {
        ResponseType::Status => {
            update_status(a, state, r);
        },
        ResponseType::Alarm => {
            state.status = Status::Alarm;
            state.alarm_code = r.alarm_code;
        },
        ResponseType::Setting => {
            if r.setting_num == 20 {
                state.soft_limits = !r.setting_val.same(Scalar { bits: 0 });
            } else if r.setting_num == 130 {
                state.max_travel.x = r.setting_val;
            } else if r.setting_num == 131 {
                state.max_travel.y = r.setting_val;
            } else if r.setting_num == 132 {
                state.max_travel.z = r.setting_val;
            }
        },
        ResponseType::Welcome => {
            state.status = Status::Idle;
            state.alarm_code = 0;
        },
        _ => {},
    }
}

fn has_char(s: &str, c: char) -> (yes: bool)
    ensures
        yes == s@.contains(c),
{
    let chars = to_chars(s);
    for i in 0..chars.len()
        invariant
            chars@ == s@,
            forall|k: int| 0 <= k < i ==> chars@[k] != c,
    {
        if chars[i] == c {
            return true;
        }
    }
    false
}

/// An alarm ends the job and forgets every line: a job that streams then stops.
pub proof fn lemma_alarm_stops(job: JobState, t: Traffic, r: Reply)
    requires
        r.resp_type == ResponseType::Alarm,
    ensures
        over(job_after(job, r).status),
        queue_after(t, r).0.idle(),
        queue_after(t, r).1.len() == 0,
{
}

/// A probing that met nothing gives an error and leaves the machine as it is: no alarm.
pub proof fn lemma_miss_is_no_alarm<A: Arithmetic>(a: &A, m: MachineState, r: Reply)
    requires
        r.resp_type == ResponseType::Probe,
        !r.probe_ok,
    ensures
        machine_after(a, m, r) == m,
        probed_height(a, m.wco, Some(ProbeReply { prb: r.prb, ok: r.probe_ok })) == Err::<
            Scalar,
            ProbeError,
        >(ProbeError::NoContact),
{
}

/// A report of one position fixes the other: their difference is the work offset.
pub proof fn lemma_positions_agree<A: Arithmetic>(a: &A, m: MachineState, r: Reply)
    requires
        r.resp_type == ResponseType::Status,
        r.has_mpos || r.has_wpos,
    ensures
        ({
            let n = machine_after(a, m, r);
            ||| n.mpos.x == plus(a, n.wpos.x, n.wco.x) && n.mpos.y == plus(a, n.wpos.y, n.wco.y)
                && n.mpos.z == plus(a, n.wpos.z, n.wco.z)
            ||| n.wpos.x == minus(a, n.mpos.x, n.wco.x) && n.wpos.y == minus(
                a,
                n.mpos.y,
                n.wco.y,
            ) && n.wpos.z == minus(a, n.mpos.z, n.wco.z)
        }),
{
}

/// Sending keeps the order and loses nothing: what is written, and then what waits, is what waited
/// before, and then the line.
pub proof fn lemma_sent_in_order(t: Traffic, line: Seq<char>)
    ensures
        sent(t, line).1 + sent(t, line).0.pending == if stripped(line).len() == 0 {
            t.pending
        } else {
            t.pending.push(stripped(line))
        },
{
    if stripped(line).len() == 0 {
        assert(Seq::<Seq<char>>::empty() + t.pending == t.pending);
    } else {
        lemma_flush_keeps_lines(t.enqueued(stripped(line)));
    }
}

/// A step of a streaming job puts the command of its line behind those that wait, and no line
/// that is blocked is ever put there.
pub proof fn lemma_stream_in_order(
    before: Engine,
    after: Engine,
    plan: &StreamPlan,
    i: int,
    step: StreamStep,
)
    requires
        0 <= i < plan.src@.len(),
        streams(before, after, plan, i, step),
    ensures
        match step {
            StreamStep::Next(lines) => {
                let line = stripped(plan.transformed@[i]@);
                &&& !plan.blocks(plan.src@[i] as int)
                &&& string_views(lines@) + after.queue.traffic().pending == if line.len() == 0 {
                    before.queue.traffic().pending
                } else {
                    before.queue.traffic().pending.push(line)
                }
            },
            _ => after.queue == before.queue,
        },
{
    lemma_strip_idempotent(plan.transformed@[i]@);
    lemma_sent_in_order(before.queue.traffic(), stripped(plan.transformed@[i]@));
}

} // verus!
