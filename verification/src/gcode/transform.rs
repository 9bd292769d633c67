//! From the lines of a job to the lines that are streamed.
use vstd::prelude::*;
use crate::arith::{
    double1, fixed, minus, narrow, over, plain, plus, show_fixed, show_plain, single1, single_of,
    times, to_unsigned, wide_to_i32, wide_to_i64, Arithmetic, Double, Op, Scalar, ONE,
};
use crate::gcode::parser::{
    arc_center_from_radius, arc_points, no_axes, tessellate_arc_points, Axes,
};
use crate::gcode::words::{
    parse_words, parsed_words, strip_comments, stripped, Word, LETTER_F, LETTER_G, LETTER_I,
    LETTER_J, LETTER_R, LETTER_X, LETTER_Y, LETTER_Z,
};
use crate::grbl::heightmap::{height_at, text_of, HeightMap, Plane};
use crate::grbl::state::{origin, spec_lerp, Orientation, Vec3};
use crate::lines::{append, space_out, spaced};
use crate::text::{from_chars, signed, signed_of, string_views, to_chars, views};

verus! {

/// The length of a chunk of a levelled move, 1.
pub const CHUNK_MM: u32 = 0x3f80_0000;

/// The length in the plane under which a move is one chunk, 0.001.
pub const SHORT_MOVE: u32 = 0x3a83_126f;

/// The millimetres in an inch, 25.4.
pub const INCH: u32 = 0x41cb_3333;

/// The least integer that is not written as one, a thousand million.
pub const HUGE: u64 = 0x41cd_cd65_0000_0000;

/// The modes that last from line to line, and the position.
#[derive(Clone, Copy, Debug)]
pub struct ModalState {
    pub pos: Vec3,
    pub absolute: bool,
    pub metric: bool,
    pub motion: i32,
    pub feed: Scalar,
}

/// The start: absolute coordinates in millimetres, rapid moves, at the origin, without a feed.
pub open spec fn modal_start() -> ModalState {
    ModalState {
        pos: origin(),
        absolute: true,
        metric: true,
        motion: 0,
        feed: Scalar { bits: 0 },
    }
}

impl Default for ModalState {
    fn default() -> (m: ModalState)
        ensures
            m == modal_start(),
    {
        ModalState {
            pos: Vec3::default(),
            absolute: true,
            metric: true,
            motion: 0,
            feed: Scalar { bits: 0 },
        }
    }
}

/// A word as text: an integer without a point.
pub open spec fn word_text<A: Arithmetic>(a: &A, w: Word) -> Seq<char> {
    if w.value.equals(double1(a, Op::Trunc, w.value)) && w.value.absolute().below(
        Double { bits: HUGE },
    ) {
        seq![w.letter as char] + signed_of(wide_to_i64(a, w.value) as int)
    } else {
        seq![w.letter as char] + plain(a, w.value)
    }
}

fn format_word<A: Arithmetic>(a: &A, w: &Word) -> (out: Vec<char>)
    requires
        a.lawful(),
    ensures
        out@ == word_text(a, *w),
{
    let number = if w.value.same(double1(a, Op::Trunc, w.value)) && w.value.abs().lt(
        Double { bits: HUGE },
    ) {
        signed(wide_to_i64(a, w.value))
    } else {
        show_plain(a, w.value)
    };
    let mut out: Vec<char> = Vec::new();
    out.push(w.letter as char);
    append(&mut out, to_chars(number.as_str()).as_slice());
    out
}

/// What the words of a line say.
pub struct Reading {
    pub modal: ModalState,
    pub axes: Axes,
    /// The words that neither move nor set a mode.
    pub others: Seq<Seq<char>>,
}

/// One word more.
pub open spec fn reading_with<A: Arithmetic>(a: &A, r: Reading, w: Word) -> Reading {
    if w.letter == LETTER_G {
        let n = wide_to_i32(a, w.value);
        if 0 <= n <= 3 {
            Reading {
                modal: ModalState { motion: n, ..r.modal },
                axes: Axes { motion: true, ..r.axes },
                ..r
            }
        } else if n == 20 {
            Reading { modal: ModalState { metric: false, ..r.modal }, ..r }
        } else if n == 21 {
            Reading { modal: ModalState { metric: true, ..r.modal }, ..r }
        } else if n == 90 {
            Reading { modal: ModalState { absolute: true, ..r.modal }, ..r }
        } else if n == 91 {
            Reading { modal: ModalState { absolute: false, ..r.modal }, ..r }
        } else {
            Reading { others: r.others.push(word_text(a, w)), ..r }
        }
    } else if w.letter == LETTER_X {
        Reading { axes: Axes { x: Some(w.value), motion: true, ..r.axes }, ..r }
    } else if w.letter == LETTER_Y {
        Reading { axes: Axes { y: Some(w.value), motion: true, ..r.axes }, ..r }
    } else if w.letter == LETTER_Z {
        Reading { axes: Axes { z: Some(w.value), motion: true, ..r.axes }, ..r }
    } else if w.letter == LETTER_I {
        Reading { axes: Axes { i: Some(w.value), ..r.axes }, ..r }
    } else if w.letter == LETTER_J {
        Reading { axes: Axes { j: Some(w.value), ..r.axes }, ..r }
    } else if w.letter == LETTER_R {
        Reading { axes: Axes { r: Some(w.value), ..r.axes }, ..r }
    } else if w.letter == LETTER_F {
        Reading { modal: ModalState { feed: narrow(a, w.value), ..r.modal }, ..r }
    } else {
        Reading { others: r.others.push(word_text(a, w)), ..r }
    }
}

/// What the words say, one after the other.
pub open spec fn reading_of<A: Arithmetic>(a: &A, modal: ModalState, words: Seq<Word>) -> Reading
    decreases words.len(),
{
    if words.len() == 0 {
        Reading { modal, axes: no_axes(), others: Seq::empty() }
    } else {
        reading_with(a, reading_of(a, modal, words.drop_last()), words.last())
    }
}

/// Takes the next word.
fn take_word<A: Arithmetic>(
    a: &A,
    modal: &mut ModalState,
    axes: &mut Axes,
    others: &mut Vec<Vec<char>>,
    w: Word,
)
    requires
        a.lawful(),
    ensures
        (Reading { modal: *final(modal), axes: *final(axes), others: views(final(others)@) })
            == reading_with(
            a,
            Reading { modal: *old(modal), axes: *old(axes), others: views(old(others)@) },
            w,
        ),
{
    let letter: u8 = w.letter;
    let ghost before = views(others@);
    let mut other = false;
    if letter == LETTER_G {
        let n: i32 = wide_to_i32(a, w.value);
        if 0 <= n && n <= 3 {
            modal.motion = n;
            axes.motion = true;
        } else if n == 20 {
            modal.metric = false;
        } else if n == 21 {
            modal.metric = true;
        } else if n == 90 {
            modal.absolute = true;
        } else if n == 91 {
            modal.absolute = false;
        } else {
            other = true;
        }
    } else if letter == LETTER_X {
        axes.x = Some(w.value);
        axes.motion = true;
    } else if letter == LETTER_Y {
        axes.y = Some(w.value);
        axes.motion = true;
    } else if letter == LETTER_Z {
        axes.z = Some(w.value);
        axes.motion = true;
    } else if letter == LETTER_I {
        axes.i = Some(w.value);
    } else if letter == LETTER_J {
        axes.j = Some(w.value);
    } else if letter == LETTER_R {
        axes.r = Some(w.value);
    } else if letter == LETTER_F {
        modal.feed = narrow(a, w.value);
    } else {
        other = true;
    }
    if other {
        others.push(format_word(a, &w));
        assert(views(others@) == before.push(word_text(a, w)));
    }
}

/// A length of the line in millimetres.
pub open spec fn spec_scaled<A: Arithmetic>(a: &A, m: ModalState, value: Double) -> Scalar {
    times(
        a,
        narrow(a, value),
        Scalar {
            bits: if m.metric {
                ONE
            } else {
                INCH
            },
        },
    )
}

#[verifier::when_used_as_spec(spec_scaled)]
pub fn scaled<A: Arithmetic>(a: &A, m: ModalState, value: Double) -> (r: Scalar)
    requires
        a.lawful(),
    ensures
        r == spec_scaled(a, m, value),
{
    let unit: u32 = if m.metric {
        ONE
    } else {
        INCH
    };
    times(a, narrow(a, value), Scalar { bits: unit })
}

/// Where a coordinate goes.
pub open spec fn spec_goal<A: Arithmetic>(
    a: &A,
    m: ModalState,
    now: Scalar,
    value: Option<Double>,
) -> Scalar {
    match value {
        None => now,
        Some(v) => if m.absolute {
            scaled(a, m, v)
        } else {
            plus(a, now, scaled(a, m, v))
        },
    }
}

#[verifier::when_used_as_spec(spec_goal)]
pub fn goal<A: Arithmetic>(a: &A, m: ModalState, now: Scalar, value: Option<Double>) -> (r: Scalar)
    requires
        a.lawful(),
    ensures
        r == spec_goal(a, m, now, value),
{
    match value {
        None => now,
        Some(v) => if m.absolute {
            scaled(a, m, v)
        } else {
            plus(a, now, scaled(a, m, v))
        },
    }
}

/// Where a line moves to.
pub open spec fn goal_of<A: Arithmetic>(a: &A, m: ModalState, axes: Axes) -> Vec3 {
    Vec3 {
        x: goal(a, m, m.pos.x, axes.x),
        y: goal(a, m, m.pos.y, axes.y),
        z: goal(a, m, m.pos.z, axes.z),
    }
}

/// The centre of the arc that a line asks for.
pub open spec fn pivot_of<A: Arithmetic>(a: &A, m: ModalState, axes: Axes, target: Vec3) -> Vec3 {
    match axes.r {
        Some(r) => arc_center_from_radius(a, m.pos, target, scaled(a, m, r), m.motion == 2),
        None => Vec3 {
            x: match axes.i {
                Some(i) => plus(a, m.pos.x, scaled(a, m, i)),
                None => m.pos.x,
            },
            y: match axes.j {
                Some(j) => plus(a, m.pos.y, scaled(a, m, j)),
                None => m.pos.y,
            },
            z: m.pos.z,
        },
    }
}

/// What the lines of a job are bent to.
pub struct Shape {
    pub plane: Option<Plane>,
    pub orient: Orientation,
}

pub open spec fn shape_of(map: Option<&HeightMap>, orient: Orientation) -> Shape {
    Shape {
        plane: match map {
            Some(m) => Some(m.plane()),
            None => None,
        },
        orient,
    }
}

/// How many chunks a move is cut into: without a height map it stays whole.
pub open spec fn chunks<A: Arithmetic>(a: &A, levelled: bool, start: Vec3, end: Vec3) -> u64 {
    if !levelled {
        1
    } else {
        let dx = minus(a, end.x, start.x);
        let dy = minus(a, end.y, start.y);
        let len = single1(a, Op::Sqrt, plus(a, times(a, dx, dx), times(a, dy, dy)));
        if len.below(Scalar { bits: SHORT_MOVE }) {
            1
        } else {
            to_unsigned(
                a,
                single1(a, Op::Ceil, over(a, len, Scalar { bits: CHUNK_MM })),
                usize::MAX as u64,
            )
        }
    }
}

/// The line that moves to the end of chunk `k` of `n`, counted from one: with the position turned
/// as the job lies, and with the height of the surface there added.
pub open spec fn chunk_line<A: Arithmetic>(
    a: &A,
    shape: Shape,
    start: Vec3,
    end: Vec3,
    rapid: bool,
    feed: Scalar,
    k: u64,
    n: u64,
) -> Seq<char> {
    let p = spec_lerp(a, start, end, over(a, single_of(a, k), single_of(a, n)));
    let (x, y) = shape.orient.placed(p.x, p.y);
    let rise = match shape.plane {
        Some(plane) => height_at(a, plane, x, y),
        None => Scalar { bits: 0 },
    };
    let to = fixed(a, x, 3) + " Y"@ + fixed(a, y, 3) + " Z"@ + fixed(a, plus(a, p.z, rise), 4);
    if rapid {
        "G90 G21 G0 X"@ + to
    } else if (Scalar { bits: 0 }).below(feed) {
        "G90 G21 G1 X"@ + to + " F"@ + fixed(a, feed, 1)
    } else {
        "G90 G21 G1 X"@ + to
    }
}

/// The lines of a straight move.
pub open spec fn move_lines<A: Arithmetic>(
    a: &A,
    shape: Shape,
    start: Vec3,
    end: Vec3,
    rapid: bool,
    feed: Scalar,
) -> Seq<Seq<char>> {
    let n = chunks(a, shape.plane is Some, start, end);
    Seq::new(
        n as nat,
        |k: int| chunk_line(a, shape, start, end, rapid, feed, (k + 1) as u64, n),
    )
}

/// The lines of the moves from `start` through `points`.
pub open spec fn arc_lines<A: Arithmetic>(
    a: &A,
    shape: Shape,
    start: Vec3,
    points: Seq<Vec3>,
    feed: Scalar,
) -> Seq<Seq<char>>
    decreases points.len(),
{
    if points.len() == 0 {
        Seq::empty()
    } else {
        let from = if points.len() == 1 {
            start
        } else {
            points[points.len() - 2]
        };
        arc_lines(a, shape, start, points.drop_last(), feed) + move_lines(
            a,
            shape,
            from,
            points.last(),
            false,
            feed,
        )
    }
}

/// What becomes of a line without comments: the modes and the position behind it, and the lines
/// that stand for it. A line that does not move is kept; of one that moves the other words come
/// first.
pub open spec fn line_out<A: Arithmetic>(a: &A, shape: Shape, modal: ModalState, line: Seq<char>) -> (
    ModalState,
    Seq<Seq<char>>,
) {
    let r = reading_of(a, modal, parsed_words(a, line));
    let m = r.modal;
    if !r.axes.motion {
        (m, seq![line])
    } else {
        let target = goal_of(a, m, r.axes);
        let head = if r.others.len() > 0 {
            seq![spaced(r.others)]
        } else {
            Seq::empty()
        };
        let moves = if m.motion == 2 || m.motion == 3 {
            let center = pivot_of(a, m, r.axes, target);
            arc_lines(
                a,
                shape,
                m.pos,
                arc_points(a, m.pos, target, center, m.motion == 2),
                m.feed,
            )
        } else {
            move_lines(a, shape, m.pos, target, m.motion == 0, m.feed)
        };
        (ModalState { pos: target, ..m }, head + moves)
    }
}

/// The lines that are streamed for the lines of a job, each with the number of its source.
pub struct Stream {
    pub modal: ModalState,
    pub lines: Seq<Seq<char>>,
    pub src: Seq<usize>,
}

pub open spec fn stream_of<A: Arithmetic>(a: &A, shape: Shape, lines: Seq<Seq<char>>) -> Stream
    decreases lines.len(),
{
    if lines.len() == 0 {
        Stream { modal: modal_start(), lines: Seq::empty(), src: Seq::empty() }
    } else {
        let s = stream_of(a, shape, lines.drop_last());
        let line = stripped(lines.last());
        if line.len() == 0 {
            s
        } else {
            let (modal, new) = line_out(a, shape, s.modal, line);
            Stream {
                modal,
                lines: s.lines + new,
                src: s.src + Seq::new(new.len(), |k: int| (lines.len() - 1) as usize),
            }
        }
    }
}

/// The streamed lines and their sources: the job's own lines, where nothing is to be changed.
pub open spec fn streamed<A: Arithmetic>(a: &A, shape: Shape, lines: Seq<Seq<char>>) -> (
    Seq<Seq<char>>,
    Seq<usize>,
) {
    if shape.plane is None && shape.orient == Orientation::R0 {
        (lines, Seq::new(lines.len(), |k: int| k as usize))
    } else {
        let s = stream_of(a, shape, lines);
        (s.lines, s.src)
    }
}

/// What is collected for the stream.
struct Emit<'a> {
    hmap: Option<&'a HeightMap>,
    orient: Orientation,
    src: usize,
    out_lines: Vec<String>,
    out_src: Vec<usize>,
}

impl<'a> Emit<'a> {
    spec fn shape(&self) -> Shape {
        shape_of(self.hmap, self.orient)
    }

    spec fn wf(&self) -> bool {
        self.hmap matches Some(m) ==> m.wf()
    }

    /// What was collected since `before`: these lines, all with the present source.
    spec fn adds(&self, before: Emit<'a>, new: Seq<Seq<char>>) -> bool {
        &&& self.hmap == before.hmap
        &&& self.orient == before.orient
        &&& self.src == before.src
        &&& string_views(self.out_lines@) == string_views(before.out_lines@) + new
        &&& self.out_src@ == before.out_src@ + Seq::new(new.len(), |k: int| before.src)
    }

    fn pass_through(&mut self, line: String)
        ensures
            final(self).adds(*old(self), seq![line@]),
    {
        let ghost before = *self;
        self.out_lines.push(line);
        self.out_src.push(self.src);
        assert(string_views(self.out_lines@) == string_views(before.out_lines@) + seq![line@]);
        assert(self.out_src@ == before.out_src@ + Seq::new(1, |k: int| before.src));
    }

    fn chunk<A: Arithmetic>(
        &self,
        a: &A,
        start: Vec3,
        end: Vec3,
        rapid: bool,
        feed: Scalar,
        k: u64,
        n: u64,
    ) -> (line: String)
        requires
            a.lawful(),
            self.wf(),
        ensures
            line@ == chunk_line(a, self.shape(), start, end, rapid, feed, k, n),
    {
        let p = start.lerp(a, end, over(a, single_of(a, k), single_of(a, n)));
        let (x, y) = self.orient.apply_xy(p.x, p.y);
        let rise = match self.hmap {
            Some(m) => m.dz(a, x, y),
            None => Scalar { bits: 0 },
        };
        let z = plus(a, p.z, rise);
        let mut to = to_chars(show_fixed(a, x, 3).as_str());
        append(&mut to, to_chars(" Y").as_slice());
        append(&mut to, to_chars(show_fixed(a, y, 3).as_str()).as_slice());
        append(&mut to, to_chars(" Z").as_slice());
        append(&mut to, to_chars(show_fixed(a, z, 4).as_str()).as_slice());
        let mut line = to_chars(
            if rapid {
                "G90 G21 G0 X"
            } else {
                "G90 G21 G1 X"
            },
        );
        append(&mut line, to.as_slice());
        if !rapid && (Scalar { bits: 0 }).lt(feed) {
            append(&mut line, to_chars(" F").as_slice());
            append(&mut line, to_chars(show_fixed(a, feed, 1).as_str()).as_slice());
        }
        from_chars(line.as_slice())
    }

    fn segment<A: Arithmetic>(&mut self, a: &A, start: Vec3, end: Vec3, rapid: bool, feed: Scalar)
        requires
            a.lawful(),
            old(self).wf(),
        ensures
            final(self).adds(
                *old(self),
                move_lines(a, old(self).shape(), start, end, rapid, feed),
            ),
    {
        let ghost before = *self;
        let n: u64 = match self.hmap {
            Some(_) => {
                let dx = minus(a, end.x, start.x);
                let dy = minus(a, end.y, start.y);
                let len = single1(a, Op::Sqrt, plus(a, times(a, dx, dx), times(a, dy, dy)));
                if len.lt(Scalar { bits: SHORT_MOVE }) {
                    1
                } else {
                    to_unsigned(
                        a,
                        single1(a, Op::Ceil, over(a, len, Scalar { bits: CHUNK_MM })),
                        usize::MAX as u64,
                    )
                }
            },
            None => 1,
        };
        let ghost all = move_lines(a, before.shape(), start, end, rapid, feed);
        assert(all.take(0) == Seq::<Seq<char>>::empty());
        let mut k: u64 = 0;
        while k < n
            invariant
                a.lawful(),
                k <= n,
                before.wf(),
                n == chunks(a, before.shape().plane is Some, start, end),
                all == move_lines(a, before.shape(), start, end, rapid, feed),
                self.adds(before, all.take(k as int)),
            decreases n - k,
        {
            let line = self.chunk(a, start, end, rapid, feed, k + 1, n);
            let ghost done = *self;
            self.pass_through(line);
            proof {
                assert(all.take(k + 1) == all.take(k as int) + seq![line@]);
                assert(string_views(self.out_lines@) == string_views(before.out_lines@)
                    + all.take(k + 1));
                assert(self.out_src@ == before.out_src@ + Seq::new(
                    (k + 1) as nat,
                    |j: int| before.src,
                ));
            }
            k = k + 1;
        }
        assert(all.take(n as int) == all);
    }

    fn arc<A: Arithmetic>(&mut self, a: &A, start: Vec3, points: &Vec<Vec3>, feed: Scalar)
        requires
            a.lawful(),
            old(self).wf(),
        ensures
            final(self).adds(
                *old(self),
                arc_lines(a, old(self).shape(), start, points@, feed),
            ),
    {
        let ghost before = *self;
        let mut prev = start;
        assert(points@.take(0) == Seq::<Vec3>::empty());
        for k in 0..points.len()
            invariant
                a.lawful(),
                before.wf(),
                prev == if k == 0 {
                    start
                } else {
                    points@[k - 1]
                },
                self.adds(
                    before,
                    arc_lines(a, before.shape(), start, points@.take(k as int), feed),
                ),
        {
            let ghost done = arc_lines(a, before.shape(), start, points@.take(k as int), feed);
            let ghost new = move_lines(a, before.shape(), prev, points@[k as int], false, feed);
            assert(points@.take(k + 1).drop_last() == points@.take(k as int));
            self.segment(a, prev, points[k], false, feed);
            prev = points[k];
            proof {
                assert(string_views(self.out_lines@) == string_views(before.out_lines@) + (done
                    + new));
                assert(self.out_src@ == before.out_src@ + Seq::new(
                    (done + new).len(),
                    |j: int| before.src,
                ));
            }
        }
        assert(points@.take(points.len() as int) == points@);
    }

    fn process_line<A: Arithmetic>(&mut self, a: &A, line: &str, state: &mut ModalState)
        requires
            a.lawful(),
            old(self).wf(),
        ensures
            ({
                let (modal, new) = line_out(a, old(self).shape(), *old(state), line@);
                *final(state) == modal && final(self).adds(*old(self), new)
            }),
    {
        let ghost before = *self;
        let ghost entry = *state;
        let words = parse_words(a, line);
        let mut axes = Axes {
            x: None,
            y: None,
            z: None,
            i: None,
            j: None,
            r: None,
            motion: false,
        };
        let mut others: Vec<Vec<char>> = Vec::new();
        assert(words@.take(0) == Seq::<Word>::empty());
        assert(views(others@) == Seq::<Seq<char>>::empty());
        for k in 0..words.len()
            invariant
                a.lawful(),
                (Reading { modal: *state, axes, others: views(others@) }) == reading_of(
                    a,
                    entry,
                    words@.take(k as int),
                ),
        {
            assert(words@.take(k + 1).drop_last() == words@.take(k as int));
            take_word(a, state, &mut axes, &mut others, words[k]);
        }
        assert(words@.take(words.len() as int) == words@);
        if !axes.motion {
            self.pass_through(text_of(line));
            return;
        }
        let m = *state;
        let target = Vec3 {
            x: goal(a, m, m.pos.x, axes.x),
            y: goal(a, m, m.pos.y, axes.y),
            z: goal(a, m, m.pos.z, axes.z),
        };
        let ghost mut head = Seq::<Seq<char>>::empty();
        if others.len() > 0 {
            self.pass_through(from_chars(space_out(&others).as_slice()));
            proof {
                head = seq![spaced(views(others@))];
            }
        } else {
            assert(string_views(self.out_lines@) == string_views(before.out_lines@) + head);
            assert(self.out_src@ == before.out_src@ + Seq::new(0, |k: int| before.src));
        }
        assert(self.adds(before, head));
        let ghost mut moves = Seq::<Seq<char>>::empty();
        if m.motion == 2 || m.motion == 3 {
            let clockwise = m.motion == 2;
            let mut center = m.pos;
            match axes.r {
                Some(r) => {
                    center =
                    arc_center_from_radius(a, m.pos, target, scaled(a, m, r), clockwise);
                },
                None => {
                    if let Some(i) = axes.i {
                        center.x = plus(a, center.x, scaled(a, m, i));
                    }
                    if let Some(j) = axes.j {
                        center.y = plus(a, center.y, scaled(a, m, j));
                    }
                },
            }
            let points = tessellate_arc_points(a, m.pos, target, center, clockwise);
            self.arc(a, m.pos, &points, m.feed);
            proof {
                moves = arc_lines(a, before.shape(), m.pos, points@, m.feed);
            }
        } else {
            self.segment(a, m.pos, target, m.motion == 0, m.feed);
            proof {
                moves = move_lines(a, before.shape(), m.pos, target, m.motion == 0, m.feed);
            }
        }
        proof {
            assert(string_views(self.out_lines@) == string_views(before.out_lines@) + (head
                + moves));
            assert(self.out_src@ == before.out_src@ + Seq::new(
                (head + moves).len(),
                |k: int| before.src,
            ));
        }
        state.pos = target;
    }
}

/// The lines to stream for a job, and for each the number of the line that it comes from. Without
/// a height map and with the job as it was written those are its own lines; else every move is
/// written out in absolute millimetres, turned as the job lies, and with a height map in chunks
/// that follow the surface.
pub fn transform_for_stream<A: Arithmetic>(
    a: &A,
    lines: &[String],
    heightmap: Option<&HeightMap>,
    orientation: Orientation,
) -> (out: (Vec<String>, Vec<usize>))
    requires
        a.lawful(),
        heightmap matches Some(m) ==> m.wf(),
    ensures
        (string_views(out.0@), out.1@) == streamed(
            a,
            shape_of(heightmap, orientation),
            string_views(lines@),
        ),
{
    let ghost shape = shape_of(heightmap, orientation);
    let ghost all = string_views(lines@);
    if heightmap.is_none() && orientation.is_identity() {
        let mut out: Vec<String> = Vec::new();
        let mut src: Vec<usize> = Vec::new();
        for i in 0..lines.len()
            invariant
                all == string_views(lines@),
                string_views(out@) == all.take(i as int),
                src@ == Seq::new(i as nat, |k: int| k as usize),
        {
            let ghost before = string_views(out@);
            out.push(lines[i].clone());
            src.push(i);
            assert(string_views(out@) == before.push(all[i as int]));
            assert(all.take(i + 1) == all.take(i as int).push(all[i as int]));
            assert(src@ == Seq::new((i + 1) as nat, |k: int| k as usize));
        }
        assert(all.take(lines.len() as int) == all);
        return (out, src);
    }
    let mut emit = Emit {
        hmap: heightmap,
        orient: orientation,
        src: 0,
        out_lines: Vec::new(),
        out_src: Vec::new(),
    };
    let mut state = ModalState::default();
    assert(all.take(0) == Seq::<Seq<char>>::empty());
    assert(string_views(emit.out_lines@) == Seq::<Seq<char>>::empty());
    for i in 0..lines.len()
        invariant
            a.lawful(),
            emit.wf(),
            emit.hmap == heightmap,
            emit.orient == orientation,
            shape == shape_of(heightmap, orientation),
            all == string_views(lines@),
            (Stream {
                modal: state,
                lines: string_views(emit.out_lines@),
                src: emit.out_src@,
            }) == stream_of(a, shape, all.take(i as int)),
    {
        assert(all.take(i + 1).drop_last() == all.take(i as int));
        let stripped = strip_comments(lines[i].as_str());
        let text = stripped.as_str();
        if to_chars(text).len() > 0 {
            emit.src = i;
            emit.process_line(a, text, &mut state);
        }
    }
    assert(all.take(lines.len() as int) == all);
    (emit.out_lines, emit.out_src)
}

/// Every streamed line comes from a line of the job, in the job's order.
pub proof fn lemma_stream_follows_job<A: Arithmetic>(a: &A, shape: Shape, lines: Seq<Seq<char>>)
    requires
        lines.len() <= usize::MAX,
    ensures
        streamed(a, shape, lines).0.len() == streamed(a, shape, lines).1.len(),
        forall|k: int|
            0 <= k < streamed(a, shape, lines).1.len() ==> #[trigger] streamed(a, shape, lines).1[k]
                < lines.len(),
        forall|j: int, k: int|
            0 <= j <= k < streamed(a, shape, lines).1.len() ==> #[trigger] streamed(
                a,
                shape,
                lines,
            ).1[j] <= #[trigger] streamed(a, shape, lines).1[k],
{
    lemma_stream_in_order(a, shape, lines);
}

proof fn lemma_stream_in_order<A: Arithmetic>(a: &A, shape: Shape, lines: Seq<Seq<char>>)
    requires
        lines.len() <= usize::MAX,
    ensures
        ({
            let s = stream_of(a, shape, lines);
            &&& s.lines.len() == s.src.len()
            &&& forall|k: int| 0 <= k < s.src.len() ==> #[trigger] s.src[k] < lines.len()
            &&& forall|j: int, k: int|
                0 <= j <= k < s.src.len() ==> #[trigger] s.src[j] <= #[trigger] s.src[k]
        }),
    decreases lines.len(),
{
    if lines.len() > 0 {
        lemma_stream_in_order(a, shape, lines.drop_last());
    }
}

/// Without a height map a straight move stays one line.
pub proof fn lemma_whole_without_map<A: Arithmetic>(
    a: &A,
    shape: Shape,
    start: Vec3,
    end: Vec3,
    rapid: bool,
    feed: Scalar,
)
    requires
        shape.plane is None,
    ensures
        move_lines(a, shape, start, end, rapid, feed).len() == 1,
{
}

/// Every move is streamed in absolute millimetres, whatever modes the job uses.
pub proof fn lemma_moves_absolute<A: Arithmetic>(
    a: &A,
    shape: Shape,
    start: Vec3,
    end: Vec3,
    rapid: bool,
    feed: Scalar,
    k: int,
)
    requires
        0 <= k < move_lines(a, shape, start, end, rapid, feed).len(),
    ensures
        "G90 G21 G"@.is_prefix_of(move_lines(a, shape, start, end, rapid, feed)[k]),
{
    reveal_strlit("G90 G21 G");
    reveal_strlit("G90 G21 G0 X");
    reveal_strlit("G90 G21 G1 X");
    let line = move_lines(a, shape, start, end, rapid, feed)[k];
    assert("G90 G21 G"@ =~= line.take(9));
}

/// How a job is bent changes neither the modes nor the positions that its lines lead to.
pub proof fn lemma_bending_leaves_modes<A: Arithmetic>(
    a: &A,
    shape: Shape,
    other: Shape,
    lines: Seq<Seq<char>>,
)
    ensures
        stream_of(a, shape, lines).modal == stream_of(a, other, lines).modal,
    decreases lines.len(),
{
    if lines.len() > 0 {
        lemma_bending_leaves_modes(a, shape, other, lines.drop_last());
    }
}

/// A line without moves is streamed as it is, without its comments.
pub proof fn lemma_still_line_kept<A: Arithmetic>(
    a: &A,
    shape: Shape,
    modal: ModalState,
    line: Seq<char>,
)
    requires
        !reading_of(a, modal, parsed_words(a, line)).axes.motion,
    ensures
        line_out(a, shape, modal, line).1 == seq![line],
        line_out(a, shape, modal, line).0.pos == modal.pos,
{
    lemma_reading_keeps_position(a, modal, parsed_words(a, line));
}

proof fn lemma_reading_keeps_position<A: Arithmetic>(a: &A, modal: ModalState, words: Seq<Word>)
    ensures
        reading_of(a, modal, words).modal.pos == modal.pos,
    decreases words.len(),
{
    if words.len() > 0 {
        lemma_reading_keeps_position(a, modal, words.drop_last());
    }
}

} // verus!
