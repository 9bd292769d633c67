//! What the controller gets when a job is streamed.
use vstd::prelude::*;
use vstd::utf8::encode_utf8;
use crate::arith::Arithmetic;
use crate::gcode::words::{lemma_strip_idempotent, stripped};
use crate::geometry::finite3;
use crate::grbl::engine::{
    commands, lemma_sent_in_order, next_stop, probed_height, queue_after, streams, Engine,
    ProbeError, ProbeReply, StreamPlan, StreamStep,
};
use crate::grbl::parser::{Reply, ResponseType};
use crate::grbl::queue::{
    lemma_flush_keeps_lines, lemma_flush_sends_all, sendable, sizes, total, Traffic,
};
use crate::grbl::state::{JobStatus, Vec3};
use crate::measure::{extent, near, precise, worth};
use crate::text::string_views;

verus! {

/// The commands among the streamed lines from `from` to before `to`: each without its comments, and
/// none that is nothing else.
pub open spec fn commands_between(plan: &StreamPlan, from: int, to: int) -> Seq<Seq<char>>
    decreases to - from,
{
    if to <= from {
        Seq::empty()
    } else {
        let front = commands_between(plan, from, to - 1);
        let line = stripped(plan.transformed@[to - 1]@);
        if line.len() > 0 {
            front.push(line)
        } else {
            front
        }
    }
}

/// Something that happens while a job is streamed: the job does what is next, or the controller says
/// something.
pub enum Happening {
    Step(StreamStep),
    Said(Reply),
}

/// How an engine and the place in the plan change by what happens, and the lines that are written.
pub open spec fn happens(
    before: Engine,
    after: Engine,
    plan: &StreamPlan,
    at: int,
    next: int,
    what: Happening,
    written: Seq<Seq<char>>,
) -> bool {
    match what {
        Happening::Step(step) => {
            &&& streams(before, after, plan, at, step)
            &&& match step {
                StreamStep::Next(lines) => next == at + 1 && written == string_views(lines@),
                _ => next == at && written.len() == 0,
            }
        },
        Happening::Said(r) => {
            &&& (after.queue.traffic(), written) == queue_after(before.queue.traffic(), r)
            &&& next == at
        },
    }
}

/// The written lines, one after the other.
pub open spec fn all_written(written: Seq<Seq<Seq<char>>>, n: int) -> Seq<Seq<char>>
    decreases n,
{
    if n <= 0 {
        Seq::empty()
    } else {
        all_written(written, n - 1) + written[n - 1]
    }
}

/// Whatever happens while a job is streamed, short of an alarm, the controller gets what waited
/// before and then the commands of the job, in their order, each once: what has been written, and
/// then what still waits. No command of a blocked line is among them.
pub proof fn lemma_stream_complete(
    engines: Seq<Engine>,
    plan: &StreamPlan,
    places: Seq<int>,
    events: Seq<Happening>,
    written: Seq<Seq<Seq<char>>>,
    n: int,
)
    requires
        0 <= n < engines.len(),
        engines.len() == places.len(),
        engines.len() == events.len() + 1,
        events.len() == written.len(),
        plan.wf(),
        places[0] == 0,
        forall|k: int|
            0 <= k < events.len() ==> happens(
                engines[k],
                engines[k + 1],
                plan,
                places[k],
                places[k + 1],
                #[trigger] events[k],
                written[k],
            ),
        forall|k: int|
            0 <= k < events.len() && (#[trigger] events[k]) is Said ==> events[k]->Said_0.resp_type
                != ResponseType::Alarm,
    ensures
        0 <= places[n] <= plan.src@.len(),
        all_written(written, n) + engines[n].queue.traffic().pending
            == engines[0].queue.traffic().pending + commands_between(plan, 0, places[n]),
        forall|j: int|
            0 <= j < places[n] ==> !((#[trigger] plan.src@[j]) < plan.violated_lines@.len()
                && plan.violated_lines@[plan.src@[j] as int]),
    decreases n,
{
    let start = engines[0].queue.traffic().pending;
    if n == 0 {
        assert(Seq::<Seq<char>>::empty() + start == start);
        assert(start + Seq::<Seq<char>>::empty() == start);
    } else {
        lemma_stream_complete(engines, plan, places, events, written, n - 1);
        let before = engines[n - 1];
        let after = engines[n];
        let t = before.queue.traffic();
        let at = places[n - 1];
        let w = written[n - 1];
        let said = all_written(written, n - 1);
        let what = events[n - 1];
        assert(happens(
            engines[n - 1],
            engines[n - 1 + 1],
            plan,
            places[n - 1],
            places[n - 1 + 1],
            events[n - 1],
            written[n - 1],
        ));
        let rest = after.queue.traffic().pending;
        match what {
            Happening::Step(step) => {
                match step {
                    StreamStep::Next(lines) => {
                        assert(at < plan.src@.len());
                        let line = stripped(plan.transformed@[at]@);
                        lemma_strip_idempotent(plan.transformed@[at]@);
                        lemma_sent_in_order(t, line);
                        assert(said + w + rest == said + (w + rest));
                        let done = commands_between(plan, 0, at);
                        if line.len() > 0 {
                            assert(said + t.pending.push(line) == (said + t.pending).push(line));
                            assert((start + done).push(line) == start + done.push(line));
                        }
                    },
                    _ => {
                        assert(after.queue == before.queue);
                        assert(said + w == said);
                    },
                }
            },
            Happening::Said(r) => {
                lemma_flush_keeps_lines(t.acked());
                assert(said + w + rest == said + (w + rest));
                assert(w + rest == t.pending);
            },
        }
    }
}

/// The bytes that lines take on the wire: each its own and one for its end.
pub open spec fn on_wire(lines: Seq<Seq<char>>) -> int
    decreases lines.len(),
{
    if lines.len() == 0 {
        0
    } else {
        on_wire(lines.drop_last()) + encode_utf8(lines.last()).len() + 1
    }
}

/// Whether the queue keeps account of exactly these lines.
pub open spec fn accounts_for(t: Traffic, lines: Seq<Seq<char>>) -> bool {
    &&& t.in_flight.len() == lines.len()
    &&& forall|k: int|
        0 <= k < lines.len() ==> #[trigger] t.in_flight[k] == encode_utf8(lines[k]).len() + 1
}

/// Whether lines are short enough to be counted.
pub open spec fn countable(lines: Seq<Seq<char>>) -> bool {
    forall|k: int|
        0 <= k < lines.len() ==> encode_utf8(#[trigger] lines[k]).len() + 1 <= usize::MAX
}

proof fn lemma_total_on_wire(t: Traffic, lines: Seq<Seq<char>>)
    requires
        accounts_for(t, lines),
    ensures
        total(t.in_flight) == on_wire(lines),
    decreases lines.len(),
{
    if lines.len() > 0 {
        let front = lines.drop_last();
        let less = Traffic { in_flight: t.in_flight.drop_last(), ..t };
        assert forall|k: int| 0 <= k < front.len() implies #[trigger] less.in_flight[k]
            == encode_utf8(front[k]).len() + 1 by {
            assert(less.in_flight[k] == t.in_flight[k]);
            assert(front[k] == lines[k]);
        }
        lemma_total_on_wire(less, front);
        let size = t.in_flight.last();
        assert(t.in_flight[lines.len() - 1] == encode_utf8(lines[lines.len() - 1]).len() + 1);
        assert(less.in_flight.push(size) == t.in_flight);
        lemma_total_push(less.in_flight, size);
    } else {
        assert(t.in_flight == Seq::<usize>::empty());
    }
}

proof fn lemma_total_push(sizes: Seq<usize>, size: usize)
    ensures
        total(sizes.push(size)) == total(sizes) + size,
    decreases sizes.len(),
{
    if sizes.len() == 0 {
        assert(sizes.push(size).drop_first() == Seq::<usize>::empty());
        reveal_with_fuel(total, 2);
    } else {
        assert(sizes.push(size).drop_first() == sizes.drop_first().push(size));
        lemma_total_push(sizes.drop_first(), size);
    }
}

/// The controller's buffer is never overrun: the lines that it has not confirmed, with their ends,
/// have room in it, unless there is but one. And nothing waits that has room: the next line would
/// overrun it.
pub proof fn lemma_buffer_respected(t: Traffic, unconfirmed: Seq<Seq<char>>)
    requires
        accounts_for(t, unconfirmed),
        unconfirmed.len() <= 1 || on_wire(unconfirmed) <= t.capacity,
        countable(t.pending),
    ensures
        ({
            let (after, out) = t.flushed();
            let now = unconfirmed + out;
            &&& accounts_for(after, now)
            &&& now.len() <= 1 || on_wire(now) <= t.capacity
            &&& after.pending.len() > 0 ==> now.len() > 0 && on_wire(now) + encode_utf8(
                after.pending[0],
            ).len() + 1 > t.capacity
        }),
    decreases t.pending.len(),
{
    let (after, out) = t.flushed();
    lemma_flush_keeps_lines(t);
    lemma_flush_sends_all(t);
    lemma_total_on_wire(t, unconfirmed);
    let n = sendable(t.capacity, t.pending, t.in_flight);
    if n == 0 {
        assert(out == Seq::<Seq<char>>::empty());
        assert(unconfirmed + out == unconfirmed);
        assert(t.in_flight + sizes(out) == t.in_flight);
        assert(after.pending == t.pending);
        if t.pending.len() > 0 {
            assert(encode_utf8(t.pending[0]).len() + 1 <= usize::MAX);
        }
    } else {
        let first = t.pending[0];
        let size = (encode_utf8(first).len() + 1) as usize;
        assert(encode_utf8(t.pending[0]).len() + 1 <= usize::MAX);
        let next = Traffic {
            pending: t.pending.drop_first(),
            in_flight: t.in_flight.push(size),
            ..t
        };
        let more = unconfirmed.push(first);
        assert forall|k: int| 0 <= k < more.len() implies #[trigger] next.in_flight[k]
            == encode_utf8(more[k]).len() + 1 by {
            if k < unconfirmed.len() {
                assert(next.in_flight[k] == t.in_flight[k]);
            }
        }
        assert forall|k: int| 0 <= k < next.pending.len() implies encode_utf8(
            #[trigger] next.pending[k],
        ).len() + 1 <= usize::MAX by {
            assert(next.pending[k] == t.pending[k + 1]);
        }
        assert(more.drop_last() == unconfirmed);
        lemma_buffer_respected(next, more);
        let (later, rest) = next.flushed();
        let m = sendable(next.capacity, next.pending, next.in_flight);
        assert(n == m + 1);
        lemma_flush_keeps_lines(next);
        assert(next.pending.len() >= m) by {
            lemma_flush_keeps_lines(next);
            lemma_sendable_bounded(next.capacity, next.pending, next.in_flight);
        }
        assert(out == seq![first] + rest);
        assert(unconfirmed + out == more + rest);
        assert(t.pending.skip(n as int) == next.pending.skip(m as int));
        assert(after.in_flight == t.in_flight + sizes(out));
        assert(sizes(out) == seq![size] + sizes(rest));
        assert(t.in_flight + (seq![size] + sizes(rest)) == t.in_flight.push(size) + sizes(rest));
        assert(after == later);
    }
}

proof fn lemma_sendable_bounded(capacity: usize, pending: Seq<Seq<char>>, in_flight: Seq<usize>)
    ensures
        sendable(capacity, pending, in_flight) <= pending.len(),
    decreases pending.len(),
{
    if pending.len() > 0 {
        lemma_sendable_bounded(
            capacity,
            pending.drop_first(),
            in_flight.push(crate::grbl::queue::size_of(pending[0]) as usize),
        );
    }
}

/// A confirmation is for the oldest line.
pub proof fn lemma_confirmed_in_order(t: Traffic, unconfirmed: Seq<Seq<char>>)
    requires
        accounts_for(t, unconfirmed),
        unconfirmed.len() > 0,
    ensures
        accounts_for(t.acked(), unconfirmed.drop_first()),
        t.acked().pending == t.pending,
        t.acked().capacity == t.capacity,
{
    let rest = unconfirmed.drop_first();
    assert forall|k: int| 0 <= k < rest.len() implies #[trigger] t.acked().in_flight[k]
        == encode_utf8(rest[k]).len() + 1 by {
        assert(t.acked().in_flight[k] == t.in_flight[k + 1]);
        assert(rest[k] == unconfirmed[k + 1]);
    }
}

/// Whether a line is not marked as one that leaves the limits.
pub open spec fn has_no_mark(violated: Seq<bool>, k: int) -> bool {
    !(k < violated.len() && violated[k])
}

/// A step of a job that is not running passes over no line that has a command or is blocked, and
/// goes no further than the first of them.
pub proof fn lemma_step_goes_to_next(
    count: int,
    violated: Seq<bool>,
    lines: Seq<Seq<char>>,
    src: Seq<usize>,
    s: int,
)
    requires
        0 <= s <= count,
        lines.len() == src.len(),
    ensures
        ({
            let to = next_stop(count, violated, lines, src, s);
            &&& s <= to <= count
            &&& forall|k: int| s <= k < to ==> #[trigger] has_no_mark(violated, k)
            &&& forall|j: int|
                0 <= j < src.len() && s <= #[trigger] src[j] < to ==> stripped(lines[j]).len() == 0
            &&& to < count ==> !has_no_mark(violated, to) || exists|j: int|
                0 <= j < src.len() && #[trigger] src[j] == to && stripped(lines[j]).len() > 0
        }),
    decreases count - s,
{
    let n = src.len() as int;
    if s < count {
        lemma_commands_of(lines, src, n, s);
        if has_no_mark(violated, s) && commands(lines, src, n, s).len() == 0 {
            lemma_step_goes_to_next(count, violated, lines, src, s + 1);
        }
    }
}

/// The commands of a line are those of its streamed lines that are not empty.
proof fn lemma_commands_of(lines: Seq<Seq<char>>, src: Seq<usize>, n: int, s: int)
    requires
        0 <= n <= src.len(),
    ensures
        commands(lines, src, n, s).len() > 0 <==> exists|j: int|
            0 <= j < n && #[trigger] src[j] == s && stripped(lines[j]).len() > 0,
        forall|k: int|
            0 <= k < commands(lines, src, n, s).len() ==> exists|j: int|
                0 <= j < n && #[trigger] src[j] == s && stripped(lines[j]) == #[trigger] commands(
                    lines,
                    src,
                    n,
                    s,
                )[k],
    decreases n,
{
    if n > 0 {
        lemma_commands_of(lines, src, n - 1, s);
        let front = commands(lines, src, n - 1, s);
        let all = commands(lines, src, n, s);
        if src[n - 1] == s && stripped(lines[n - 1]).len() > 0 {
            assert(all[front.len() as int] == stripped(lines[n - 1]));
        }
        assert forall|k: int| 0 <= k < all.len() implies exists|j: int|
            0 <= j < n && #[trigger] src[j] == s && stripped(lines[j]) == #[trigger] all[k] by {
            if k < front.len() {
                assert(all[k] == front[k]);
                let j = choose|j: int|
                    0 <= j < n - 1 && #[trigger] src[j] == s && stripped(lines[j]) == front[k];
                assert(src[j] == s);
            } else {
                assert(src[n - 1] == s);
            }
        }
    }
}

/// A probing finds a height only by contact: where the probe was, in work coordinates. No reply is a
/// timeout, and a reply without contact is an error.
pub proof fn lemma_probed_height<A: Arithmetic>(
    a: &A,
    wco: Vec3,
    reply: Option<ProbeReply>,
    bound: real,
    eps: real,
)
    requires
        precise(a, bound, eps),
        finite3(wco),
        reply matches Some(r) ==> finite3(r.prb) && extent(worth(r.prb.z) - worth(wco.z)) <= bound,
    ensures
        match probed_height(a, wco, reply) {
            Ok(h) => reply matches Some(r) && r.ok && near(
                worth(h),
                worth(r.prb.z) - worth(wco.z),
                eps,
            ),
            Err(e) => if reply is None {
                e == ProbeError::Timeout
            } else {
                e == ProbeError::NoContact && !reply->0.ok
            },
        },
{
}

/// Every line is answered, in the order in which they were sent: a confirmation or an error is for
/// the oldest, which makes room for what waits. An alarm forgets what was sent and what waits, and
/// nothing else that the controller says changes anything.
pub proof fn lemma_answers_in_order(t: Traffic, unconfirmed: Seq<Seq<char>>, r: Reply)
    requires
        accounts_for(t, unconfirmed),
        unconfirmed.len() > 0,
        unconfirmed.len() == 1 || on_wire(unconfirmed) <= t.capacity,
        countable(t.pending),
    ensures
        ({
            let (after, out) = queue_after(t, r);
            if r.resp_type == ResponseType::Ack || r.resp_type == ResponseType::Error {
                let now = unconfirmed.drop_first() + out;
                &&& accounts_for(after, now)
                &&& now.len() <= 1 || on_wire(now) <= t.capacity
                &&& out + after.pending == t.pending
            } else if r.resp_type == ResponseType::Alarm {
                &&& accounts_for(after, Seq::empty())
                &&& after.pending.len() == 0
                &&& out.len() == 0
            } else {
                after == t && out.len() == 0
            }
        }),
{
    if r.resp_type == ResponseType::Ack || r.resp_type == ResponseType::Error {
        let rest = unconfirmed.drop_first();
        lemma_confirmed_in_order(t, unconfirmed);
        lemma_wire_shrinks(unconfirmed);
        lemma_buffer_respected(t.acked(), rest);
        lemma_flush_keeps_lines(t.acked());
    }
}

proof fn lemma_wire_shrinks(lines: Seq<Seq<char>>)
    requires
        lines.len() > 0,
    ensures
        on_wire(lines.drop_first()) < on_wire(lines),
        on_wire(lines.drop_first()) >= 0,
    decreases lines.len(),
{
    let rest = lines.drop_first();
    if rest.len() > 0 {
        let front = lines.drop_last();
        lemma_wire_shrinks(front);
        assert(rest.drop_last() == front.drop_first());
        assert(rest.last() == lines.last());
    } else {
        assert(on_wire(lines.drop_last()) == 0);
    }
}

/// A job that is over or paused writes nothing more. It is complete only when all its lines have been
/// passed on and the controller has confirmed every one, and a line that leaves the limits ends it.
pub proof fn lemma_stream_stops(
    before: Engine,
    after: Engine,
    plan: &StreamPlan,
    at: int,
    step: StreamStep,
)
    requires
        plan.wf(),
        0 <= at,
        streams(before, after, plan, at, step),
    ensures
        step is Next ==> {
            &&& before.job.status == JobStatus::Running
            &&& at < plan.src@.len()
            &&& after.job.status == JobStatus::Running
        },
        after.job.status == JobStatus::Complete && before.job.status != JobStatus::Complete ==> {
            &&& at >= plan.src@.len()
            &&& before.queue.traffic().pending.len() == 0
            &&& before.queue.traffic().in_flight.len() == 0
        },
        before.job.status == JobStatus::Running && at < plan.src@.len() && !has_no_mark(
            plan.violated_lines@,
            plan.src@[at] as int,
        ) ==> step is Blocked && after.job.status == JobStatus::Idle && after.queue
            == before.queue,
{
}

} // verus!
