//! What waits to be sent, and what the controller has not yet confirmed.
//!
//! The controller keeps the bytes of a line in a buffer until it confirms the line. Lines are sent
//! only as far as the buffer has room for them; a line longer than the buffer is sent alone.
use std::collections::VecDeque;
use vstd::prelude::*;
use vstd::utf8::encode_utf8;
use crate::text::string_views;

verus! {

/// The bytes of a line.
pub open spec fn bytes_in(line: Seq<char>) -> usize {
    encode_utf8(line).len() as usize
}

/// The room that so many bytes and a line end take.
pub open spec fn room_for(bytes: usize) -> int {
    if bytes == usize::MAX {
        bytes as int
    } else {
        bytes + 1
    }
}

/// The room that a line takes.
pub open spec fn size_of(line: Seq<char>) -> int {
    room_for(bytes_in(line))
}

fn room(bytes: usize) -> (n: usize)
    ensures
        n == room_for(bytes),
        n >= 1,
{
    if bytes == usize::MAX {
        bytes
    } else {
        bytes + 1
    }
}

/// The sum of the sizes.
pub open spec fn total(sizes: Seq<usize>) -> int
    decreases sizes.len(),
{
    if sizes.len() == 0 {
        0
    } else {
        sizes[0] + total(sizes.drop_first())
    }
}

/// Whether a line of that size can be sent: it has room, or nothing else is in the buffer.
pub open spec fn fits(capacity: usize, in_flight: Seq<usize>, size: int) -> bool {
    in_flight.len() == 0 || total(in_flight) + size <= capacity
}

/// How many of the waiting lines can be sent.
pub open spec fn sendable(capacity: usize, pending: Seq<Seq<char>>, in_flight: Seq<usize>) -> nat
    decreases pending.len(),
{
    if pending.len() == 0 || !fits(capacity, in_flight, size_of(pending[0])) {
        0
    } else {
        1 + sendable(
            capacity,
            pending.drop_first(),
            in_flight.push(size_of(pending[0]) as usize),
        )
    }
}

/// The sizes of lines.
pub open spec fn sizes(lines: Seq<Seq<char>>) -> Seq<usize> {
    lines.map_values(|l: Seq<char>| size_of(l) as usize)
}

/// What a queue holds.
#[verifier::ext_equal]
pub struct Traffic {
    pub capacity: usize,
    /// The lines that wait.
    pub pending: Seq<Seq<char>>,
    /// The sizes of the lines that were sent and not confirmed.
    pub in_flight: Seq<usize>,
}

impl Traffic {
    /// Everything that can be sent is sent: the lines, and what is left.
    pub open spec fn flushed(self) -> (Traffic, Seq<Seq<char>>) {
        let n = sendable(self.capacity, self.pending, self.in_flight) as int;
        (
            Traffic {
                pending: self.pending.skip(n),
                in_flight: self.in_flight + sizes(self.pending.take(n)),
                ..self
            },
            self.pending.take(n),
        )
    }

    pub open spec fn enqueued(self, line: Seq<char>) -> Traffic {
        Traffic { pending: self.pending.push(line), ..self }
    }

    /// The oldest line in the buffer is confirmed.
    pub open spec fn acked(self) -> Traffic {
        if self.in_flight.len() == 0 {
            self
        } else {
            Traffic { in_flight: self.in_flight.drop_first(), ..self }
        }
    }

    pub open spec fn cleared(self) -> Traffic {
        Traffic { pending: Seq::empty(), in_flight: Seq::empty(), ..self }
    }

    pub open spec fn idle(self) -> bool {
        self.pending.len() == 0 && self.in_flight.len() == 0
    }

    /// The buffer is not overrun, but by a line that is alone in it.
    pub open spec fn safe(self) -> bool {
        total(self.in_flight) <= self.capacity || self.in_flight.len() == 1
    }
}

/// The waiting lines and the sizes of the unconfirmed ones.
#[derive(Debug)]
pub struct SendQueue {
    capacity: usize,
    pending: VecDeque<String>,
    in_flight: VecDeque<usize>,
    used: usize,
}

impl SendQueue {
    pub closed spec fn traffic(&self) -> Traffic {
        Traffic {
            capacity: self.capacity,
            pending: string_views(self.pending@),
            in_flight: self.in_flight@,
        }
    }

    /// The count of used bytes is right, and the buffer is not overrun.
    pub closed spec fn wf(&self) -> bool {
        self.used == total(self.in_flight@) && self.traffic().safe()
    }

    pub fn new(capacity: usize) -> (q: SendQueue)
        ensures
            q.wf(),
            q.traffic() == (Traffic {
                capacity,
                pending: Seq::empty(),
                in_flight: Seq::empty(),
            }),
    {
        let q = SendQueue {
            capacity,
            pending: VecDeque::new(),
            in_flight: VecDeque::new(),
            used: 0,
        };
        assert(q.traffic().pending == Seq::<Seq<char>>::empty());
        q
    }

    pub fn enqueue(&mut self, line: String)
        requires
            old(self).wf(),
        ensures
            final(self).wf(),
            final(self).traffic() == old(self).traffic().enqueued(line@),
    {
        let ghost before = self.traffic();
        self.pending.push_back(line);
        assert(self.traffic().pending == before.pending.push(line@));
    }

    /// Takes the lines that can be sent out of the queue, the oldest first.
    pub fn flush(&mut self) -> (out: Vec<String>)
        requires
            old(self).wf(),
        ensures
            final(self).wf(),
            (final(self).traffic(), string_views(out@)) == old(self).traffic().flushed(),
    {
        let ghost before = self.traffic();
        let ghost n = sendable(before.capacity, before.pending, before.in_flight);
        let mut out: Vec<String> = Vec::new();
        proof {
            lemma_sendable(before.capacity, before.pending, before.in_flight);
            assert(before.pending.skip(0) == before.pending);
            assert(before.in_flight + sizes(before.pending.take(0)) == before.in_flight);
            assert(string_views(out@) == before.pending.take(0));
        }
        loop
            invariant_except_break
                self.wf(),
                out.len() <= n <= before.pending.len(),
                n == sendable(before.capacity, before.pending, before.in_flight),
                self.capacity == before.capacity,
                string_views(self.pending@) == before.pending.skip(out.len() as int),
                self.in_flight@ == before.in_flight + sizes(
                    before.pending.take(out.len() as int),
                ),
                string_views(out@) == before.pending.take(out.len() as int),
                n - out.len() == sendable(
                    self.capacity,
                    string_views(self.pending@),
                    self.in_flight@,
                ),
            ensures
                self.wf(),
                out.len() == n,
                self.capacity == before.capacity,
                string_views(self.pending@) == before.pending.skip(n as int),
                self.in_flight@ == before.in_flight + sizes(before.pending.take(n as int)),
                string_views(out@) == before.pending.take(n as int),
            decreases self.pending@.len(),
        {
            if self.pending.len() == 0 {
                break;
            }
            let size: usize = room(self.pending[0].as_str().len());
            let ghost waiting = string_views(self.pending@);
            let ghost done = out.len() as int;
            assert(waiting[0] == self.pending@[0]@);
            assert(size == size_of(waiting[0]));
            if self.in_flight.len() > 0 && (self.used > self.capacity || size > self.capacity
                - self.used) {
                break;
            }
            let ghost flying = self.in_flight@;
            proof {
                lemma_total_push(flying, size);
                if flying.len() == 0 {
                    assert(total(flying) == 0);
                }
            }
            match self.pending.pop_front() {
                Some(line) => {
                    self.in_flight.push_back(size);
                    self.used = self.used + size;
                    let ghost sent = string_views(out@);
                    out.push(line);
                    proof {
                        assert(waiting == before.pending.skip(done));
                        assert(line@ == before.pending[done]);
                        assert(string_views(self.pending@) == waiting.drop_first());
                        assert(waiting.drop_first() == before.pending.skip(done + 1));
                        assert(string_views(out@) == sent.push(line@));
                        assert(before.pending.take(done + 1) == sent.push(line@));
                        assert(sizes(before.pending.take(done + 1)) == sizes(
                            before.pending.take(done),
                        ).push(size));
                        assert(self.in_flight@ == before.in_flight + sizes(
                            before.pending.take(done + 1),
                        ));
                    }
                },
                None => {
                    break;
                },
            }
        }
        out
    }

    /// Takes note that the controller has confirmed the oldest line.
    pub fn ack(&mut self)
        requires
            old(self).wf(),
        ensures
            final(self).wf(),
            final(self).traffic() == old(self).traffic().acked(),
    {
        let ghost flying = self.in_flight@;
        proof {
            lemma_total_parts(flying);
        }
        if let Some(size) = self.in_flight.pop_front() {
            assert(self.in_flight@ == flying.drop_first());
            self.used = self.used - size;
        }
    }

    pub fn has_space_for(&self, len: usize) -> (yes: bool)
        requires
            self.wf(),
        ensures
            yes == fits(self.traffic().capacity, self.traffic().in_flight, room_for(len)),
    {
        let size = room(len);
        self.in_flight.len() == 0 || (self.used <= self.capacity && size <= self.capacity
            - self.used)
    }

    pub fn is_idle(&self) -> (yes: bool)
        ensures
            yes == self.traffic().idle(),
    {
        self.pending.len() == 0 && self.in_flight.len() == 0
    }

    pub fn clear(&mut self)
        ensures
            final(self).wf(),
            final(self).traffic() == old(self).traffic().cleared(),
    {
        self.pending.clear();
        self.in_flight.clear();
        self.used = 0;
        assert(string_views(self.pending@) == Seq::<Seq<char>>::empty());
    }

    /// The bytes of the unconfirmed lines, their line ends included.
    pub fn in_flight_bytes(&self) -> (n: usize)
        requires
            self.wf(),
        ensures
            n == total(self.traffic().in_flight),
    {
        self.used
    }

    /// A queue in use does not overrun the buffer.
    pub proof fn lemma_safe(&self)
        requires
            self.wf(),
        ensures
            self.traffic().safe(),
    {
    }
}

proof fn lemma_sendable(capacity: usize, pending: Seq<Seq<char>>, in_flight: Seq<usize>)
    ensures
        sendable(capacity, pending, in_flight) <= pending.len(),
    decreases pending.len(),
{
    if pending.len() > 0 && fits(capacity, in_flight, size_of(pending[0])) {
        lemma_sendable(
            capacity,
            pending.drop_first(),
            in_flight.push(size_of(pending[0]) as usize),
        );
    }
}

proof fn lemma_total_push(sizes: Seq<usize>, size: usize)
    ensures
        total(sizes.push(size)) == total(sizes) + size,
    decreases sizes.len(),
{
    if sizes.len() == 0 {
        assert(sizes.push(size).drop_first() == Seq::<usize>::empty());
        reveal_with_fuel(total, 2);
    } else {
        assert(sizes.push(size).drop_first() == sizes.drop_first().push(size));
        lemma_total_push(sizes.drop_first(), size);
    }
}

proof fn lemma_total_parts(sizes: Seq<usize>)
    ensures
        total(sizes) >= 0,
        sizes.len() > 0 ==> total(sizes.drop_first()) >= 0,
    decreases sizes.len(),
{
    if sizes.len() > 0 {
        lemma_total_parts(sizes.drop_first());
    }
}

/// Flushing loses nothing and keeps the order: the lines that are sent and those that still wait
/// are those that waited.
pub proof fn lemma_flush_keeps_lines(t: Traffic)
    ensures
        t.flushed().1 + t.flushed().0.pending == t.pending,
        t.flushed().0.in_flight == t.in_flight + sizes(t.flushed().1),
{
    lemma_sendable(t.capacity, t.pending, t.in_flight);
}

/// Flushing sends all it can: what waits behind it has no room.
pub proof fn lemma_flush_sends_all(t: Traffic)
    ensures
        t.flushed().0.pending.len() > 0 ==> !fits(
            t.capacity,
            t.flushed().0.in_flight,
            size_of(t.flushed().0.pending[0]),
        ),
        t.flushed().0.flushed().1.len() == 0,
    decreases t.pending.len(),
{
    let n = sendable(t.capacity, t.pending, t.in_flight);
    lemma_sendable(t.capacity, t.pending, t.in_flight);
    if t.pending.len() > 0 && fits(t.capacity, t.in_flight, size_of(t.pending[0])) {
        let next = Traffic {
            pending: t.pending.drop_first(),
            in_flight: t.in_flight.push(size_of(t.pending[0]) as usize),
            ..t
        };
        lemma_flush_sends_all(next);
        lemma_sendable(next.capacity, next.pending, next.in_flight);
        assert(next.pending.skip(n - 1) == t.pending.skip(n as int));
        assert(next.in_flight + sizes(next.pending.take(n - 1)) == t.in_flight + sizes(
            t.pending.take(n as int),
        ));
        assert(next.flushed().0 == t.flushed().0);
    } else {
        assert(t.pending.skip(0) == t.pending);
        assert(t.in_flight + sizes(t.pending.take(0)) == t.in_flight);
        assert(t.flushed().0 == t);
    }
}

/// A confirmation gives back the room of the oldest line.
pub proof fn lemma_ack_releases(t: Traffic)
    requires
        t.in_flight.len() > 0,
    ensures
        total(t.acked().in_flight) == total(t.in_flight) - t.in_flight[0],
        t.acked().pending == t.pending,
{
}

/// As many confirmations as lines leave an idle queue: a line that is sent into an empty buffer
/// and confirmed leaves no trace.
pub proof fn lemma_ack_undoes_send(t: Traffic, line: Seq<char>)
    requires
        t.idle(),
    ensures
        t.enqueued(line).flushed().1 == seq![line],
        t.enqueued(line).flushed().0.acked() == t,
{
    let q = t.enqueued(line);
    assert(q.pending == seq![line]);
    assert(q.pending.drop_first() == Seq::<Seq<char>>::empty());
    assert(sendable(q.capacity, q.pending, q.in_flight) == 1) by {
        reveal_with_fuel(sendable, 2);
    }
    assert(q.flushed().1 == seq![line]);
    assert(q.flushed().0.acked().pending == t.pending);
    assert(q.flushed().0.acked().in_flight == t.in_flight);
}

} // verus!
