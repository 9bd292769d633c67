//! From G-code lines to a toolpath.
use vstd::prelude::*;
use crate::arith::{
    double1, double2, double_of, minus, narrow, over, plus, single1, times, wide_minus, wide_over,
    wide_plus, wide_times, wide_to_i32, wide_to_u64, widen, Arithmetic, Double, Op, Scalar, HALF,
};
use crate::gcode::words::{
    parse_words, parsed_words, Word, LETTER_G, LETTER_I, LETTER_J, LETTER_R, LETTER_X, LETTER_Y,
    LETTER_Z,
};
use crate::grbl::state::{inside, origin, Segment, Vec3};
use crate::text::string_views;

verus! {

/// The chord under which an arc has no centre, 0.0001.
pub const SHORT_CHORD: u32 = 0x38d1_b717;

/// A full turn.
pub const TURN: u64 = 0x4019_21fb_5444_2d18;

/// The angle of one step along an arc, a 36th of a turn.
pub const ARC_STEP: u64 = 0x3fc6_5718_4ae7_4487;

/// 1
pub const ONE_WIDE: u64 = 0x3ff0_0000_0000_0000;

/// The millimetres in an inch, 25.4.
pub const INCH_WIDE: u64 = 0x4039_6666_6666_6666;

/// The angle that an arc sweeps, negative if clockwise. A full circle is swept where the ends meet.
pub open spec fn spec_arc_sweep<A: Arithmetic>(
    a: &A,
    start: Vec3,
    end: Vec3,
    center: Vec3,
    clockwise: bool,
) -> Double {
    let from = angle_at(a, start, center);
    let to = angle_at(a, end, center);
    let turn = Double { bits: TURN };
    let last = if clockwise && from.at_most(to) {
        wide_minus(a, to, turn)
    } else if !clockwise && to.at_most(from) {
        wide_plus(a, to, turn)
    } else {
        to
    };
    wide_minus(a, last, from)
}

/// The direction from `center` to `p`.
pub open spec fn spec_angle_at<A: Arithmetic>(a: &A, p: Vec3, center: Vec3) -> Double {
    double2(
        a,
        Op::Atan2,
        widen(a, minus(a, p.y, center.y)),
        widen(a, minus(a, p.x, center.x)),
    )
}

#[verifier::when_used_as_spec(spec_angle_at)]
pub fn angle_at<A: Arithmetic>(a: &A, p: Vec3, center: Vec3) -> (r: Double)
    requires
        a.lawful(),
    ensures
        r == spec_angle_at(a, p, center),
{
    double2(
        a,
        Op::Atan2,
        widen(a, minus(a, p.y, center.y)),
        widen(a, minus(a, p.x, center.x)),
    )
}

#[verifier::when_used_as_spec(spec_arc_sweep)]
pub fn arc_sweep<A: Arithmetic>(
    a: &A,
    start: Vec3,
    end: Vec3,
    center: Vec3,
    clockwise: bool,
) -> (r: Double)
    requires
        a.lawful(),
    ensures
        r == spec_arc_sweep(a, start, end, center, clockwise),
{
    let from = angle_at(a, start, center);
    let mut to = angle_at(a, end, center);
    let turn = Double { bits: TURN };
    if clockwise {
        if from.le(to) {
            to = wide_minus(a, to, turn);
        }
    } else if to.le(from) {
        to = wide_plus(a, to, turn);
    }
    wide_minus(a, to, from)
}

/// The centre of the arc with the given radius: of the two circles through both ends, that on
/// which the arc is the shorter one, or the longer one for a negative radius. It is the start
/// where the ends are too close or too far apart for the radius.
pub open spec fn spec_arc_center_from_radius<A: Arithmetic>(
    a: &A,
    start: Vec3,
    end: Vec3,
    radius: Scalar,
    clockwise: bool,
) -> Vec3 {
    let half = Scalar { bits: HALF };
    let dx = minus(a, end.x, start.x);
    let dy = minus(a, end.y, start.y);
    let chord = single1(a, Op::Sqrt, plus(a, times(a, dx, dx), times(a, dy, dy)));
    let r = radius.absolute();
    if chord.below(Scalar { bits: SHORT_CHORD }) || r.below(times(a, chord, half)) {
        start
    } else {
        let mx = times(a, plus(a, start.x, end.x), half);
        let my = times(a, plus(a, start.y, end.y), half);
        let h = single1(
            a,
            Op::Sqrt,
            minus(a, times(a, r, r), single1(a, Op::Square, times(a, chord, half))),
        );
        let px = over(a, dy.negated(), chord);
        let py = over(a, dx, chord);
        let left = Vec3 {
            x: plus(a, mx, times(a, px, h)),
            y: plus(a, my, times(a, py, h)),
            z: start.z,
        };
        let right = Vec3 {
            x: minus(a, mx, times(a, px, h)),
            y: minus(a, my, times(a, py, h)),
            z: start.z,
        };
        let major = radius.below(Scalar { bits: 0 });
        let dl = arc_sweep(a, start, end, left, clockwise).absolute();
        let dr = arc_sweep(a, start, end, right, clockwise).absolute();
        if major && dr.negated().below(dl.negated()) || !major && dr.below(dl) {
            right
        } else {
            left
        }
    }
}

#[verifier::when_used_as_spec(spec_arc_center_from_radius)]
pub fn arc_center_from_radius<A: Arithmetic>(
    a: &A,
    start: Vec3,
    end: Vec3,
    radius: Scalar,
    clockwise: bool,
) -> (center: Vec3)
    requires
        a.lawful(),
    ensures
        center == spec_arc_center_from_radius(a, start, end, radius, clockwise),
{
    let half = Scalar { bits: HALF };
    let dx = minus(a, end.x, start.x);
    let dy = minus(a, end.y, start.y);
    let chord = single1(a, Op::Sqrt, plus(a, times(a, dx, dx), times(a, dy, dy)));
    let r = radius.abs();
    if chord.lt(Scalar { bits: SHORT_CHORD }) || r.lt(times(a, chord, half)) {
        return start;
    }
    let mx = times(a, plus(a, start.x, end.x), half);
    let my = times(a, plus(a, start.y, end.y), half);
    let h = single1(
        a,
        Op::Sqrt,
        minus(a, times(a, r, r), single1(a, Op::Square, times(a, chord, half))),
    );
    let px = over(a, dy.neg(), chord);
    let py = over(a, dx, chord);
    let left = Vec3 {
        x: plus(a, mx, times(a, px, h)),
        y: plus(a, my, times(a, py, h)),
        z: start.z,
    };
    let right = Vec3 {
        x: minus(a, mx, times(a, px, h)),
        y: minus(a, my, times(a, py, h)),
        z: start.z,
    };
    let dl = arc_sweep(a, start, end, left, clockwise).abs();
    let dr = arc_sweep(a, start, end, right, clockwise).abs();
    let better = if radius.lt(Scalar { bits: 0 }) {
        dr.neg().lt(dl.neg())
    } else {
        dr.lt(dl)
    };
    if better {
        right
    } else {
        left
    }
}

/// How many straight pieces stand for an arc: one for each full step of the swept angle, and at
/// least one.
pub open spec fn spec_arc_steps<A: Arithmetic>(a: &A, sweep: Double) -> usize {
    let n = wide_to_u64(
        a,
        wide_over(a, sweep.absolute(), Double { bits: ARC_STEP }).greater(
            Double { bits: ONE_WIDE },
        ),
    );
    if n > usize::MAX {
        usize::MAX
    } else {
        n as usize
    }
}

#[verifier::when_used_as_spec(spec_arc_steps)]
pub fn arc_steps<A: Arithmetic>(a: &A, sweep: Double) -> (n: usize)
    requires
        a.lawful(),
    ensures
        n == spec_arc_steps(a, sweep),
{
    let n: u64 = wide_to_u64(
        a,
        wide_over(a, sweep.abs(), Double { bits: ARC_STEP }).max(Double { bits: ONE_WIDE }),
    );
    if n > usize::MAX as u64 {
        usize::MAX
    } else {
        n as usize
    }
}

/// The point after `i` of `steps` steps along an arc that starts at the angle `from`.
pub open spec fn spec_arc_point<A: Arithmetic>(
    a: &A,
    start: Vec3,
    end: Vec3,
    center: Vec3,
    from: Double,
    sweep: Double,
    radius: Double,
    i: usize,
    steps: usize,
) -> Vec3 {
    let t = wide_over(a, double_of(a, i as u64), double_of(a, steps as u64));
    let angle = wide_plus(a, from, wide_times(a, t, sweep));
    Vec3 {
        x: plus(a, center.x, narrow(a, wide_times(a, radius, double1(a, Op::Cos, angle)))),
        y: plus(a, center.y, narrow(a, wide_times(a, radius, double1(a, Op::Sin, angle)))),
        z: plus(a, start.z, times(a, narrow(a, t), minus(a, end.z, start.z))),
    }
}

#[verifier::when_used_as_spec(spec_arc_point)]
pub fn arc_point<A: Arithmetic>(
    a: &A,
    start: Vec3,
    end: Vec3,
    center: Vec3,
    from: Double,
    sweep: Double,
    radius: Double,
    i: usize,
    steps: usize,
) -> (p: Vec3)
    requires
        a.lawful(),
    ensures
        p == spec_arc_point(a, start, end, center, from, sweep, radius, i, steps),
{
    let t = wide_over(a, double_of(a, i as u64), double_of(a, steps as u64));
    let angle = wide_plus(a, from, wide_times(a, t, sweep));
    Vec3 {
        x: plus(a, center.x, narrow(a, wide_times(a, radius, double1(a, Op::Cos, angle)))),
        y: plus(a, center.y, narrow(a, wide_times(a, radius, double1(a, Op::Sin, angle)))),
        z: plus(a, start.z, times(a, narrow(a, t), minus(a, end.z, start.z))),
    }
}

/// The distance of `p` from `center` in the plane.
pub open spec fn spec_arc_radius<A: Arithmetic>(a: &A, p: Vec3, center: Vec3) -> Double {
    double1(
        a,
        Op::Sqrt,
        wide_plus(
            a,
            double1(a, Op::Square, widen(a, minus(a, p.x, center.x))),
            double1(a, Op::Square, widen(a, minus(a, p.y, center.y))),
        ),
    )
}

#[verifier::when_used_as_spec(spec_arc_radius)]
pub fn arc_radius<A: Arithmetic>(a: &A, p: Vec3, center: Vec3) -> (r: Double)
    requires
        a.lawful(),
    ensures
        r == spec_arc_radius(a, p, center),
{
    double1(
        a,
        Op::Sqrt,
        wide_plus(
            a,
            double1(a, Op::Square, widen(a, minus(a, p.x, center.x))),
            double1(a, Op::Square, widen(a, minus(a, p.y, center.y))),
        ),
    )
}

/// The points that stand for an arc, without its start.
pub open spec fn arc_points<A: Arithmetic>(
    a: &A,
    start: Vec3,
    end: Vec3,
    center: Vec3,
    clockwise: bool,
) -> Seq<Vec3> {
    let sweep = arc_sweep(a, start, end, center, clockwise);
    let steps = arc_steps(a, sweep);
    Seq::new(
        steps as nat,
        |i: int|
            arc_point(
                a,
                start,
                end,
                center,
                angle_at(a, start, center),
                sweep,
                arc_radius(a, start, center),
                (i + 1) as usize,
                steps,
            ),
    )
}

pub fn tessellate_arc_points<A: Arithmetic>(
    a: &A,
    start: Vec3,
    end: Vec3,
    center: Vec3,
    clockwise: bool,
) -> (pts: Vec<Vec3>)
    requires
        a.lawful(),
    ensures
        pts@ == arc_points(a, start, end, center, clockwise),
{
    let sweep = arc_sweep(a, start, end, center, clockwise);
    let from = angle_at(a, start, center);
    let steps = arc_steps(a, sweep);
    let radius = arc_radius(a, start, center);
    let mut pts: Vec<Vec3> = Vec::new();
    for i in 0..steps
        invariant
            a.lawful(),
            sweep == arc_sweep(a, start, end, center, clockwise),
            from == angle_at(a, start, center),
            steps == arc_steps(a, sweep),
            radius == arc_radius(a, start, center),
            pts@ == arc_points(a, start, end, center, clockwise).take(i as int),
    {
        pts.push(arc_point(a, start, end, center, from, sweep, radius, i + 1, steps));
        assert(pts@ == arc_points(a, start, end, center, clockwise).take(i + 1));
    }
    assert(arc_points(a, start, end, center, clockwise).take(steps as int) == arc_points(
        a,
        start,
        end,
        center,
        clockwise,
    ));
    pts
}

/// The pieces from `start` through `points`, one after the other.
pub open spec fn chain(start: Vec3, points: Seq<Vec3>, line: usize) -> Seq<Segment> {
    Seq::new(
        points.len(),
        |k: int|
            Segment {
                start: if k == 0 {
                    start
                } else {
                    points[k - 1]
                },
                end: points[k],
                rapid: false,
                line,
            },
    )
}

fn tessellate_arc<A: Arithmetic>(
    a: &A,
    start: Vec3,
    end: Vec3,
    center: Vec3,
    clockwise: bool,
    line: usize,
    out: &mut Vec<Segment>,
)
    requires
        a.lawful(),
    ensures
        final(out)@ == old(out)@ + chain(start, arc_points(a, start, end, center, clockwise), line),
{
    let pts = tessellate_arc_points(a, start, end, center, clockwise);
    let ghost before = out@;
    let mut prev = start;
    for k in 0..pts.len()
        invariant
            prev == if k == 0 {
                start
            } else {
                pts@[k - 1]
            },
            out@ == before + chain(start, pts@, line).take(k as int),
    {
        out.push(Segment { start: prev, end: pts[k], rapid: false, line });
        prev = pts[k];
        assert(chain(start, pts@, line).take(k + 1) == chain(start, pts@, line).take(
            k as int,
        ).push(chain(start, pts@, line)[k as int]));
    }
    assert(chain(start, pts@, line).take(pts.len() as int) == chain(start, pts@, line));
}

/// The modes that last from line to line, and the position.
#[derive(Clone, Copy, Debug)]
pub struct Parser {
    pub pos: Vec3,
    pub absolute: bool,
    pub metric: bool,
    pub motion: i32,
}

/// The numbers that a line gives to the letters of a move; of several the last.
#[derive(Clone, Copy, Debug)]
pub struct Axes {
    pub x: Option<Double>,
    pub y: Option<Double>,
    pub z: Option<Double>,
    pub i: Option<Double>,
    pub j: Option<Double>,
    pub r: Option<Double>,
    /// Whether there is a motion mode or a coordinate.
    pub motion: bool,
}

pub open spec fn no_axes() -> Axes {
    Axes { x: None, y: None, z: None, i: None, j: None, r: None, motion: false }
}

/// One word more.
pub open spec fn with_word<A: Arithmetic>(a: &A, read: (Parser, Axes), word: Word) -> (
    Parser,
    Axes,
) {
    let (p, axes) = read;
    if word.letter == LETTER_G {
        let n = wide_to_i32(a, word.value);
        if 0 <= n <= 3 {
            (Parser { motion: n, ..p }, Axes { motion: true, ..axes })
        } else if n == 90 {
            (Parser { absolute: true, ..p }, axes)
        } else if n == 91 {
            (Parser { absolute: false, ..p }, axes)
        } else if n == 20 {
            (Parser { metric: false, ..p }, axes)
        } else if n == 21 {
            (Parser { metric: true, ..p }, axes)
        } else {
            (p, axes)
        }
    } else if word.letter == LETTER_X {
        (p, Axes { x: Some(word.value), motion: true, ..axes })
    } else if word.letter == LETTER_Y {
        (p, Axes { y: Some(word.value), motion: true, ..axes })
    } else if word.letter == LETTER_Z {
        (p, Axes { z: Some(word.value), motion: true, ..axes })
    } else if word.letter == LETTER_I {
        (p, Axes { i: Some(word.value), ..axes })
    } else if word.letter == LETTER_J {
        (p, Axes { j: Some(word.value), ..axes })
    } else if word.letter == LETTER_R {
        (p, Axes { r: Some(word.value), ..axes })
    } else {
        (p, axes)
    }
}

/// What the words of a line say, one after the other.
pub open spec fn with_words<A: Arithmetic>(a: &A, p: Parser, words: Seq<Word>) -> (Parser, Axes)
    decreases words.len(),
{
    if words.len() == 0 {
        (p, no_axes())
    } else {
        with_word(a, with_words(a, p, words.drop_last()), words.last())
    }
}

/// A length of the line in millimetres.
pub open spec fn spec_millimetres<A: Arithmetic>(a: &A, p: Parser, value: Double) -> Scalar {
    narrow(
        a,
        wide_times(
            a,
            value,
            Double {
                bits: if p.metric {
                    ONE_WIDE
                } else {
                    INCH_WIDE
                },
            },
        ),
    )
}

#[verifier::when_used_as_spec(spec_millimetres)]
pub fn millimetres<A: Arithmetic>(a: &A, p: Parser, value: Double) -> (r: Scalar)
    requires
        a.lawful(),
    ensures
        r == spec_millimetres(a, p, value),
{
    let unit: u64 = if p.metric {
        ONE_WIDE
    } else {
        INCH_WIDE
    };
    narrow(a, wide_times(a, value, Double { bits: unit }))
}

/// Where a coordinate goes.
pub open spec fn spec_coordinate<A: Arithmetic>(
    a: &A,
    p: Parser,
    now: Scalar,
    value: Option<Double>,
) -> Scalar {
    match value {
        None => now,
        Some(v) => if p.absolute {
            millimetres(a, p, v)
        } else {
            plus(a, now, millimetres(a, p, v))
        },
    }
}

#[verifier::when_used_as_spec(spec_coordinate)]
pub fn coordinate<A: Arithmetic>(a: &A, p: Parser, now: Scalar, value: Option<Double>) -> (r:
    Scalar)
    requires
        a.lawful(),
    ensures
        r == spec_coordinate(a, p, now, value),
{
    match value {
        None => now,
        Some(v) => if p.absolute {
            millimetres(a, p, v)
        } else {
            plus(a, now, millimetres(a, p, v))
        },
    }
}

pub open spec fn target_of<A: Arithmetic>(a: &A, p: Parser, axes: Axes) -> Vec3 {
    Vec3 {
        x: coordinate(a, p, p.pos.x, axes.x),
        y: coordinate(a, p, p.pos.y, axes.y),
        z: coordinate(a, p, p.pos.z, axes.z),
    }
}

/// The centre of the arc that a line asks for, by its radius or by its offsets from the start.
pub open spec fn center_of<A: Arithmetic>(a: &A, p: Parser, axes: Axes, target: Vec3) -> Vec3 {
    match axes.r {
        Some(r) => arc_center_from_radius(a, p.pos, target, millimetres(a, p, r), p.motion == 2),
        None => Vec3 {
            x: match axes.i {
                Some(i) => plus(a, p.pos.x, millimetres(a, p, i)),
                None => p.pos.x,
            },
            y: match axes.j {
                Some(j) => plus(a, p.pos.y, millimetres(a, p, j)),
                None => p.pos.y,
            },
            z: p.pos.z,
        },
    }
}

/// What a line with these words does: the modes and the position behind it, and its segments.
pub open spec fn after_words<A: Arithmetic>(a: &A, p: Parser, words: Seq<Word>, line: usize) -> (
    Parser,
    Seq<Segment>,
) {
    let (q, axes) = with_words(a, p, words);
    if !axes.motion {
        (q, Seq::empty())
    } else {
        let target = target_of(a, q, axes);
        if q.motion == 0 || q.motion == 1 {
            (
                Parser { pos: target, ..q },
                seq![Segment { start: q.pos, end: target, rapid: q.motion == 0, line }],
            )
        } else if q.motion == 2 || q.motion == 3 {
            let center = center_of(a, q, axes, target);
            (
                Parser { pos: target, ..q },
                chain(q.pos, arc_points(a, q.pos, target, center, q.motion == 2), line),
            )
        } else {
            (q, Seq::empty())
        }
    }
}

/// The start: absolute coordinates in millimetres, rapid moves, at the origin.
pub open spec fn at_rest() -> Parser {
    Parser { pos: origin(), absolute: true, metric: true, motion: 0 }
}

/// What the lines of a job do.
pub open spec fn path_of<A: Arithmetic>(a: &A, lines: Seq<Seq<char>>) -> (Parser, Seq<Segment>)
    decreases lines.len(),
{
    if lines.len() == 0 {
        (at_rest(), Seq::empty())
    } else {
        let (p, segments) = path_of(a, lines.drop_last());
        let (q, new) = after_words(
            a,
            p,
            parsed_words(a, lines.last()),
            (lines.len() - 1) as usize,
        );
        (q, segments + new)
    }
}

impl Parser {
    /// Takes the next word.
    fn take_word<A: Arithmetic>(&mut self, a: &A, axes: &mut Axes, word: Word)
        requires
            a.lawful(),
        ensures
            (*final(self), *final(axes)) == with_word(a, (*old(self), *old(axes)), word),
    {
        let letter: u8 = word.letter;
        if letter == LETTER_G {
            let n: i32 = wide_to_i32(a, word.value);
            if 0 <= n && n <= 3 {
                self.motion = n;
                axes.motion = true;
            } else if n == 90 {
                self.absolute = true;
            } else if n == 91 {
                self.absolute = false;
            } else if n == 20 {
                self.metric = false;
            } else if n == 21 {
                self.metric = true;
            }
        } else if letter == LETTER_X {
            axes.x = Some(word.value);
            axes.motion = true;
        } else if letter == LETTER_Y {
            axes.y = Some(word.value);
            axes.motion = true;
        } else if letter == LETTER_Z {
            axes.z = Some(word.value);
            axes.motion = true;
        } else if letter == LETTER_I {
            axes.i = Some(word.value);
        } else if letter == LETTER_J {
            axes.j = Some(word.value);
        } else if letter == LETTER_R {
            axes.r = Some(word.value);
        }
    }

    fn parse_line<A: Arithmetic>(
        &mut self,
        a: &A,
        raw: &str,
        line_num: usize,
        out: &mut Vec<Segment>,
    )
        requires
            a.lawful(),
        ensures
            ({
                let (p, segments) = after_words(a, *old(self), parsed_words(a, raw@), line_num);
                *final(self) == p && final(out)@ == old(out)@ + segments
            }),
    {
        let words = parse_words(a, raw);
        let ghost entry = *self;
        let mut axes = Axes {
            x: None,
            y: None,
            z: None,
            i: None,
            j: None,
            r: None,
            motion: false,
        };
        assert(words@.take(0) == Seq::<Word>::empty());
        for k in 0..words.len()
            invariant
                a.lawful(),
                (*self, axes) == with_words(a, entry, words@.take(k as int)),
        {
            assert(words@.take(k + 1).drop_last() == words@.take(k as int));
            self.take_word(a, &mut axes, words[k]);
        }
        assert(words@.take(words.len() as int) == words@);
        let ghost before = out@;
        if !axes.motion {
            assert(before + Seq::<Segment>::empty() == before);
            return;
        }
        let p = *self;
        let target = Vec3 {
            x: coordinate(a, p, p.pos.x, axes.x),
            y: coordinate(a, p, p.pos.y, axes.y),
            z: coordinate(a, p, p.pos.z, axes.z),
        };
        match self.motion {
            0 | 1 => {
                let segment = Segment {
                    start: p.pos,
                    end: target,
                    rapid: p.motion == 0,
                    line: line_num,
                };
                out.push(segment);
                assert(before + seq![segment] == before.push(segment));
                self.pos = target;
            },
            2 | 3 => {
                let clockwise = p.motion == 2;
                let mut center = p.pos;
                match axes.r {
                    Some(r) => {
                        center =
                        arc_center_from_radius(
                            a,
                            p.pos,
                            target,
                            millimetres(a, p, r),
                            clockwise,
                        );
                    },
                    None => {
                        if let Some(i) = axes.i {
                            center.x = plus(a, center.x, millimetres(a, p, i));
                        }
                        if let Some(j) = axes.j {
                            center.y = plus(a, center.y, millimetres(a, p, j));
                        }
                    },
                }
                tessellate_arc(a, p.pos, target, center, clockwise, line_num, out);
                self.pos = target;
            },
            _ => {
                assert(before + Seq::<Segment>::empty() == before);
            },
        }
    }
}

/// `bmin` moved down to `v` in the coordinates in which `v` is below.
pub open spec fn lowered(bmin: Vec3, v: Vec3) -> Vec3 {
    Vec3 {
        x: if v.x.below(bmin.x) {
            v.x
        } else {
            bmin.x
        },
        y: if v.y.below(bmin.y) {
            v.y
        } else {
            bmin.y
        },
        z: if v.z.below(bmin.z) {
            v.z
        } else {
            bmin.z
        },
    }
}

/// `bmax` moved up to `v` in the coordinates in which `v` is above.
pub open spec fn raised(bmax: Vec3, v: Vec3) -> Vec3 {
    Vec3 {
        x: if bmax.x.below(v.x) {
            v.x
        } else {
            bmax.x
        },
        y: if bmax.y.below(v.y) {
            v.y
        } else {
            bmax.y
        },
        z: if bmax.z.below(v.z) {
            v.z
        } else {
            bmax.z
        },
    }
}

/// The least box around the origin and the ends of the segments.
pub open spec fn bounds_of(segments: Seq<Segment>) -> (Vec3, Vec3)
    decreases segments.len(),
{
    if segments.len() == 0 {
        (origin(), origin())
    } else {
        let (bmin, bmax) = bounds_of(segments.drop_last());
        let s = segments.last();
        (lowered(lowered(bmin, s.start), s.end), raised(raised(bmax, s.start), s.end))
    }
}

fn update_bounds(v: Vec3, bmin: &mut Vec3, bmax: &mut Vec3)
    ensures
        *final(bmin) == lowered(*old(bmin), v),
        *final(bmax) == raised(*old(bmax), v),
{
    if v.x.lt(bmin.x) {
        bmin.x = v.x;
    }
    if v.y.lt(bmin.y) {
        bmin.y = v.y;
    }
    if v.z.lt(bmin.z) {
        bmin.z = v.z;
    }
    if bmax.x.lt(v.x) {
        bmax.x = v.x;
    }
    if bmax.y.lt(v.y) {
        bmax.y = v.y;
    }
    if bmax.z.lt(v.z) {
        bmax.z = v.z;
    }
}

/// The toolpath of a job, and the corners of the box that it needs.
pub fn parse_with_bounds<A: Arithmetic>(a: &A, lines: &[String]) -> (out: (
    Vec<Segment>,
    Vec3,
    Vec3,
))
    requires
        a.lawful(),
    ensures
        out.0@ == path_of(a, string_views(lines@)).1,
        (out.1, out.2) == bounds_of(out.0@),
{
    let mut p = Parser { pos: Vec3::default(), absolute: true, metric: true, motion: 0 };
    let mut segs: Vec<Segment> = Vec::new();
    let ghost all = string_views(lines@);
    assert(all.take(0) == Seq::<Seq<char>>::empty());
    for i in 0..lines.len()
        invariant
            a.lawful(),
            all == string_views(lines@),
            (p, segs@) == path_of(a, all.take(i as int)),
    {
        assert(all.take(i + 1).drop_last() == all.take(i as int));
        p.parse_line(a, lines[i].as_str(), i, &mut segs);
    }
    assert(all.take(lines.len() as int) == all);
    let mut bmin = Vec3::default();
    let mut bmax = Vec3::default();
    assert(segs@.take(0) == Seq::<Segment>::empty());
    for k in 0..segs.len()
        invariant
            (bmin, bmax) == bounds_of(segs@.take(k as int)),
    {
        assert(segs@.take(k + 1).drop_last() == segs@.take(k as int));
        update_bounds(segs[k].start, &mut bmin, &mut bmax);
        update_bounds(segs[k].end, &mut bmin, &mut bmax);
    }
    assert(segs@.take(segs.len() as int) == segs@);
    (segs, bmin, bmax)
}

/// Whether `x` is in the range from `lo` to `hi`, or no number.
pub open spec fn within(lo: Scalar, x: Scalar, hi: Scalar) -> bool {
    x.nan() || (lo.at_most(x) && x.at_most(hi))
}

/// Whether each coordinate of `v` is in the box, or no number.
pub open spec fn boxed(bounds: (Vec3, Vec3), v: Vec3) -> bool {
    within(bounds.0.x, v.x, bounds.1.x) && within(bounds.0.y, v.y, bounds.1.y) && within(
        bounds.0.z,
        v.z,
        bounds.1.z,
    )
}

/// The bounds hold the origin and both ends of every segment.
pub proof fn lemma_bounds_hold_path(segments: Seq<Segment>)
    ensures
        inside(origin(), bounds_of(segments).0, bounds_of(segments).1),
        forall|k: int|
            0 <= k < segments.len() ==> boxed(
                bounds_of(segments),
                (#[trigger] segments[k]).start,
            ) && boxed(bounds_of(segments), segments[k].end),
    decreases segments.len(),
{
    if segments.len() > 0 {
        let front = segments.drop_last();
        lemma_bounds_hold_path(front);
        assert forall|k: int| 0 <= k < segments.len() implies boxed(
            bounds_of(segments),
            (#[trigger] segments[k]).start,
        ) && boxed(bounds_of(segments), segments[k].end) by {
            if k < front.len() {
                assert(front[k] == segments[k]);
            }
        }
    }
}

/// Whether some end of a segment, or the origin, has these coordinates among its own.
pub open spec fn reaches(segments: Seq<Segment>, x: Scalar, axis: int) -> bool {
    ||| x == (Scalar { bits: 0 })
    ||| exists|k: int|
        0 <= k < segments.len() && (along((#[trigger] segments[k]).start, axis) == x || along(
            segments[k].end,
            axis,
        ) == x)
}

/// A coordinate of a point.
pub open spec fn along(v: Vec3, axis: int) -> Scalar {
    if axis == 0 {
        v.x
    } else if axis == 1 {
        v.y
    } else {
        v.z
    }
}

/// The bounds are tight: each face passes through the origin or an end of a segment.
pub proof fn lemma_bounds_tight(segments: Seq<Segment>, axis: int)
    ensures
        reaches(segments, along(bounds_of(segments).0, axis), axis),
        reaches(segments, along(bounds_of(segments).1, axis), axis),
    decreases segments.len(),
{
    if segments.len() > 0 {
        let front = segments.drop_last();
        lemma_bounds_tight(front, axis);
        assert forall|x: Scalar| #[trigger] reaches(front, x, axis) implies reaches(
            segments,
            x,
            axis,
        ) by {
            if x != (Scalar { bits: 0 }) {
                let k = choose|k: int|
                    0 <= k < front.len() && (along((#[trigger] front[k]).start, axis) == x
                        || along(front[k].end, axis) == x);
                assert(segments[k] == front[k]);
            }
        }
        assert(segments[segments.len() - 1] == segments.last());
    }
}

/// The segments come in the order of the lines, each from a line of the job, and the pieces of a
/// line follow each other without a gap.
pub proof fn lemma_path_follows_lines<A: Arithmetic>(a: &A, lines: Seq<Seq<char>>)
    requires
        lines.len() <= usize::MAX,
    ensures
        forall|k: int|
            0 <= k < path_of(a, lines).1.len() ==> (#[trigger] path_of(a, lines).1[k]).line
                < lines.len(),
        forall|k: int|
            0 < k < path_of(a, lines).1.len() ==> {
                let before = path_of(a, lines).1[k - 1];
                let next = #[trigger] path_of(a, lines).1[k];
                before.line < next.line || (before.line == next.line && before.end == next.start)
            },
    decreases lines.len(),
{
    if lines.len() > 0 {
        let front = lines.drop_last();
        lemma_path_follows_lines(a, front);
        let (p, segments) = path_of(a, front);
        let line = (lines.len() - 1) as usize;
        let words = parsed_words(a, lines.last());
        let new = after_words(a, p, words, line).1;
        let all = path_of(a, lines).1;
        assert(all == segments + new);
        assert(forall|k: int| 0 <= k < new.len() ==> (#[trigger] new[k]).line == line);
        assert(forall|k: int| 0 < k < new.len() ==> new[k - 1].end == (#[trigger] new[k]).start);
        assert forall|k: int| 0 <= k < all.len() implies (#[trigger] all[k]).line < lines.len() by {
            if k < segments.len() {
                assert(all[k] == segments[k]);
            } else {
                assert(all[k] == new[k - segments.len()]);
            }
        }
        assert forall|k: int| 0 < k < all.len() implies {
            let before = all[k - 1];
            let next = #[trigger] all[k];
            before.line < next.line || (before.line == next.line && before.end == next.start)
        } by {
            if k < segments.len() {
                assert(all[k] == segments[k]);
                assert(all[k - 1] == segments[k - 1]);
            } else if k == segments.len() {
                assert(all[k - 1] == segments[k - 1]);
                assert(all[k] == new[0]);
            } else {
                assert(all[k] == new[k - segments.len()]);
                assert(all[k - 1] == new[k - segments.len() - 1]);
            }
        }
    }
}

/// Later lines change nothing of what earlier lines do.
pub proof fn lemma_path_grows<A: Arithmetic>(a: &A, lines: Seq<Seq<char>>, n: int)
    requires
        0 <= n <= lines.len(),
    ensures
        path_of(a, lines.take(n)).1.is_prefix_of(path_of(a, lines).1),
    decreases lines.len(),
{
    if n == lines.len() {
        assert(lines.take(n) == lines);
    } else {
        let front = lines.drop_last();
        lemma_path_grows(a, front, n);
        assert(front.take(n) == lines.take(n));
        let (p, segments) = path_of(a, front);
        let new = after_words(
            a,
            p,
            parsed_words(a, lines.last()),
            (lines.len() - 1) as usize,
        ).1;
        assert(path_of(a, lines).1 == segments + new);
    }
}

} // verus!
