//! What the words of a line mean for the tool.
use vstd::prelude::*;
use crate::arith::{narrow, wide_times, wide_to_i32, Arithmetic, Double, Scalar};
use crate::gcode::parser::{after_words, coordinate, millimetres, with_words, Parser};
use crate::gcode::transform::{reading_of, ModalState};
use crate::gcode::words::Word;
use crate::geometry::finite3;
use crate::measure::{
    extent, gives, lemma_product, lemma_wide_worth_of_constants, near, precise, wide_finite,
    wide_gives, wide_precise, wide_worth, worth,
};

verus! {

/// The number behind the last word with this letter.
pub open spec fn last_number(words: Seq<Word>, c: char) -> Option<Double>
    decreases words.len(),
{
    if words.len() == 0 {
        None
    } else if words.last().letter == c as u8 {
        Some(words.last().value)
    } else {
        last_number(words.drop_last(), c)
    }
}

/// Whether a word is a G with one of these codes.
pub open spec fn is_code<A: Arithmetic>(a: &A, w: Word, codes: Seq<int>) -> bool {
    w.letter == 'G' as u8 && codes.contains(wide_to_i32(a, w.value) as int)
}

/// The last of these codes in a line, or the one that was in force before it.
pub open spec fn code_in_force<A: Arithmetic>(
    a: &A,
    words: Seq<Word>,
    codes: Seq<int>,
    before: int,
) -> int
    decreases words.len(),
{
    if words.len() == 0 {
        before
    } else if is_code(a, words.last(), codes) {
        wide_to_i32(a, words.last().value) as int
    } else {
        code_in_force(a, words.drop_last(), codes, before)
    }
}

/// Whether a line asks for a move: by a coordinate, or by the code of a motion.
pub open spec fn asks_for_move<A: Arithmetic>(a: &A, words: Seq<Word>) -> bool {
    exists|k: int| 0 <= k < words.len() && moves_word(a, #[trigger] words[k])
}

pub open spec fn moves_word<A: Arithmetic>(a: &A, w: Word) -> bool {
    w.letter == 'X' as u8 || w.letter == 'Y' as u8 || w.letter == 'Z' as u8 || is_code(
        a,
        w,
        seq![0, 1, 2, 3],
    )
}

/// The codes that choose between absolute and relative coordinates, and between inches and
/// millimetres.
pub open spec fn absolute_code(absolute: bool) -> int {
    if absolute {
        90
    } else {
        91
    }
}

pub open spec fn metric_code(metric: bool) -> int {
    if metric {
        21
    } else {
        20
    }
}

/// What the words of a line say does not depend on their order, but that of several with one letter,
/// or of several codes for one mode, the last counts.
pub proof fn lemma_words_say<A: Arithmetic>(a: &A, p: Parser, words: Seq<Word>)
    ensures
        ({
            let (q, axes) = with_words(a, p, words);
            &&& q.pos == p.pos
            &&& q.motion == code_in_force(a, words, seq![0, 1, 2, 3], p.motion as int)
            &&& absolute_code(q.absolute) == code_in_force(
                a,
                words,
                seq![90, 91],
                absolute_code(p.absolute),
            )
            &&& metric_code(q.metric) == code_in_force(
                a,
                words,
                seq![20, 21],
                metric_code(p.metric),
            )
            &&& axes.x == last_number(words, 'X')
            &&& axes.y == last_number(words, 'Y')
            &&& axes.z == last_number(words, 'Z')
            &&& axes.i == last_number(words, 'I')
            &&& axes.j == last_number(words, 'J')
            &&& axes.r == last_number(words, 'R')
            &&& axes.motion == asks_for_move(a, words)
        }),
    decreases words.len(),
{
    if words.len() > 0 {
        let front = words.drop_last();
        let w = words.last();
        lemma_words_say(a, p, front);
        lemma_codes(a, w);
        lemma_asks(a, words);
    }
}

proof fn lemma_codes<A: Arithmetic>(a: &A, w: Word)
    ensures
        is_code(a, w, seq![0, 1, 2, 3]) <==> w.letter == 71 && 0 <= wide_to_i32(a, w.value) <= 3,
        is_code(a, w, seq![90, 91]) <==> w.letter == 71 && (wide_to_i32(a, w.value) == 90
            || wide_to_i32(a, w.value) == 91),
        is_code(a, w, seq![20, 21]) <==> w.letter == 71 && (wide_to_i32(a, w.value) == 20
            || wide_to_i32(a, w.value) == 21),
{
    let n = wide_to_i32(a, w.value) as int;
    let moves = seq![0int, 1, 2, 3];
    let ways = seq![90int, 91];
    let units = seq![20int, 21];
    assert(moves[0] == 0 && moves[1] == 1 && moves[2] == 2 && moves[3] == 3);
    assert(ways[0] == 90 && ways[1] == 91);
    assert(units[0] == 20 && units[1] == 21);
    assert(0 <= n <= 3 ==> moves[n] == n);
}

proof fn lemma_asks<A: Arithmetic>(a: &A, words: Seq<Word>)
    requires
        words.len() > 0,
    ensures
        asks_for_move(a, words) == (asks_for_move(a, words.drop_last()) || moves_word(
            a,
            words.last(),
        )),
{
    let front = words.drop_last();
    if asks_for_move(a, front) {
        let k = choose|k: int| 0 <= k < front.len() && moves_word(a, #[trigger] front[k]);
        assert(words[k] == front[k]);
    }
    if asks_for_move(a, words) {
        let k = choose|k: int| 0 <= k < words.len() && moves_word(a, #[trigger] words[k]);
        assert(k < front.len() ==> front[k] == words[k]);
    }
    assert(words[words.len() - 1] == words.last());
}

/// The stream reads the words of a line as the preview does, and takes the feed from the last F.
pub proof fn lemma_stream_words_say<A: Arithmetic>(a: &A, m: ModalState, words: Seq<Word>)
    ensures
        ({
            let r = reading_of(a, m, words);
            let p = Parser {
                pos: m.pos,
                absolute: m.absolute,
                metric: m.metric,
                motion: m.motion,
            };
            let (q, axes) = with_words(a, p, words);
            &&& r.modal.pos == m.pos
            &&& r.modal.absolute == q.absolute
            &&& r.modal.metric == q.metric
            &&& r.modal.motion == q.motion
            &&& r.axes == axes
            &&& r.modal.feed == match last_number(words, 'F') {
                Some(v) => narrow(a, v),
                None => m.feed,
            }
        }),
    decreases words.len(),
{
    if words.len() > 0 {
        lemma_stream_words_say(a, m, words.drop_last());
    }
}

/// A line moves the tool only if it asks for a move. Then it starts where the tool is and leaves it
/// at the goal, and a straight move is one segment, which is a rapid one exactly for the code 0.
pub proof fn lemma_line_moves<A: Arithmetic>(a: &A, p: Parser, words: Seq<Word>, line: usize)
    requires
        0 <= p.motion <= 3,
    ensures
        ({
            let (q, segments) = after_words(a, p, words, line);
            let motion = code_in_force(a, words, seq![0, 1, 2, 3], p.motion as int);
            &&& 0 <= q.motion <= 3
            &&& !asks_for_move(a, words) ==> segments.len() == 0 && q.pos == p.pos
            &&& asks_for_move(a, words) && motion <= 1 ==> {
                &&& segments.len() == 1
                &&& segments[0].start == p.pos
                &&& segments[0].end == q.pos
                &&& segments[0].rapid == (motion == 0)
                &&& segments[0].line == line
            }
            &&& asks_for_move(a, words) && motion >= 2 && segments.len() > 0 ==> {
                &&& segments[0].start == p.pos
                &&& forall|k: int| 0 <= k < segments.len() ==> !(#[trigger] segments[k]).rapid
                    && segments[k].line == line
            }
        }),
{
    lemma_words_say(a, p, words);
    lemma_motion_in_force(a, words, p.motion as int);
}

proof fn lemma_motion_in_force<A: Arithmetic>(a: &A, words: Seq<Word>, before: int)
    requires
        0 <= before <= 3,
    ensures
        0 <= code_in_force(a, words, seq![0, 1, 2, 3], before) <= 3,
    decreases words.len(),
{
    if words.len() > 0 {
        lemma_codes(a, words.last());
        lemma_motion_in_force(a, words.drop_last(), before);
    }
}

/// The millimetres of a length on a line.
pub open spec fn length_of_number(v: real, metric: bool) -> real {
    if metric {
        v
    } else {
        v * (254 as real / 10 as real)
    }
}

/// Where a coordinate is to go: to the number, or by the number, or to where it is.
pub open spec fn goes_to(now: real, v: Option<real>, metric: bool, absolute: bool) -> real {
    match v {
        None => now,
        Some(x) => if absolute {
            length_of_number(x, metric)
        } else {
            now + length_of_number(x, metric)
        },
    }
}

pub open spec fn worth_of(v: Option<Double>) -> Option<real> {
    match v {
        Some(x) => Some(wide_worth(x)),
        None => None,
    }
}

/// Whether a number on a line is finite and no larger than `m`.
pub open spec fn moderate(v: Option<Double>, m: real) -> bool {
    v matches Some(x) ==> wide_finite(x) && extent(wide_worth(x)) <= m
}

/// How far a length may be off.
pub open spec fn length_slack(m: real, eps: real, fine: real) -> real {
    eps + fine + m / 10000000 as real
}

/// A length in millimetres.
pub proof fn lemma_millimetres<A: Arithmetic>(
    a: &A,
    p: Parser,
    v: Double,
    m: real,
    bound: real,
    eps: real,
    fine: real,
)
    requires
        wide_precise(a, bound, eps, bound, fine),
        wide_finite(v) && extent(wide_worth(v)) <= m,
        30 as real * m + 1 as real <= bound,
        0 as real <= fine <= 1 as real,
        eps >= 0 as real,
    ensures
        gives(
            millimetres(a, p, v),
            length_of_number(wide_worth(v), p.metric),
            length_slack(m, eps, fine),
        ),
{
    lemma_wide_worth_of_constants();
    let w = wide_worth(v);
    let one = Double { bits: 0x3ff0_0000_0000_0000 };
    let inch = Double { bits: 0x4039_6666_6666_6666 };
    let unit = if p.metric {
        one
    } else {
        inch
    };
    let u = wide_worth(unit);
    let (i, e) = (254 as real / 10 as real, 1 as real / 10000000 as real);
    assert(near(wide_worth(inch), i, e));
    let full = if p.metric {
        1 as real
    } else {
        i
    };
    lemma_product(w, u, w, full, 0 as real, e);
    assert(0 as real * extent(full) == 0 as real && 0 as real * e == 0 as real) by (nonlinear_arith);
    assert(e * extent(w) <= m / 10000000 as real) by (nonlinear_arith)
        requires
            e == 1 as real / 10000000 as real,
            0 as real <= extent(w) <= m,
    ;
    assert(w * 1 as real == w) by (nonlinear_arith);
    assert(extent(w * full) <= 26 as real * m) by (nonlinear_arith)
        requires
            extent(w) <= m,
            0 as real <= full <= 26 as real,
    ;
    let product = wide_times(a, v, unit);
    assert(wide_gives(product, w * u, fine));
}

/// Where the coordinates of a line go: to their numbers, or by them, in millimetres or in inches of
/// 25.4 millimetres; a coordinate that is not given stays.
pub proof fn lemma_goal<A: Arithmetic>(
    a: &A,
    p: Parser,
    now: Scalar,
    v: Option<Double>,
    m: real,
    bound: real,
    eps: real,
    fine: real,
)
    requires
        precise(a, bound, eps),
        wide_precise(a, bound, eps, bound, fine),
        moderate(v, m),
        now.finite() && extent(worth(now)) <= m,
        60 as real * m + 8 as real <= bound,
        0 as real <= fine <= 1 as real,
        0 as real <= eps <= 1 as real,
        m >= 0 as real,
    ensures
        gives(
            coordinate(a, p, now, v),
            goes_to(worth(now), worth_of(v), p.metric, p.absolute),
            length_slack(m, eps, fine) + eps,
        ),
        v is None ==> coordinate(a, p, now, v) == now,
{
    if let Some(x) = v {
        lemma_millimetres(a, p, x, m, bound, eps, fine);
        let w = wide_worth(x);
        let full = length_of_number(w, p.metric);
        assert(extent(full) <= 26 as real * m) by (nonlinear_arith)
            requires
                extent(w) <= m,
                full == w || full == w * (254 as real / 10 as real),
                m >= 0 as real,
        ;
        assert(m / 10000000 as real <= m) by (nonlinear_arith)
            requires
                m >= 0 as real,
        ;
    }
}

/// A straight move ends where its line says.
pub proof fn lemma_straight_move_ends<A: Arithmetic>(
    a: &A,
    p: Parser,
    words: Seq<Word>,
    line: usize,
    m: real,
    bound: real,
    eps: real,
    fine: real,
)
    requires
        precise(a, bound, eps),
        wide_precise(a, bound, eps, bound, fine),
        0 <= p.motion <= 3,
        finite3(p.pos) && extent(worth(p.pos.x)) <= m && extent(worth(p.pos.y)) <= m && extent(
            worth(p.pos.z),
        ) <= m,
        asks_for_move(a, words),
        moderate(last_number(words, 'X'), m),
        moderate(last_number(words, 'Y'), m),
        moderate(last_number(words, 'Z'), m),
        60 as real * m + 8 as real <= bound,
        0 as real <= fine <= 1 as real,
        0 as real <= eps <= 1 as real,
        m >= 0 as real,
    ensures
        ({
            let (q, _segments) = after_words(a, p, words, line);
            let absolute = code_in_force(a, words, seq![90, 91], absolute_code(p.absolute)) == 90;
            let metric = code_in_force(a, words, seq![20, 21], metric_code(p.metric)) == 21;
            let d = length_slack(m, eps, fine) + eps;
            &&& gives(
                q.pos.x,
                goes_to(worth(p.pos.x), worth_of(last_number(words, 'X')), metric, absolute),
                d,
            )
            &&& gives(
                q.pos.y,
                goes_to(worth(p.pos.y), worth_of(last_number(words, 'Y')), metric, absolute),
                d,
            )
            &&& gives(
                q.pos.z,
                goes_to(worth(p.pos.z), worth_of(last_number(words, 'Z')), metric, absolute),
                d,
            )
        }),
{
    lemma_words_say(a, p, words);
    lemma_motion_in_force(a, words, p.motion as int);
    let (q, axes) = with_words(a, p, words);
    lemma_goal(a, q, p.pos.x, axes.x, m, bound, eps, fine);
    lemma_goal(a, q, p.pos.y, axes.y, m, bound, eps, fine);
    lemma_goal(a, q, p.pos.z, axes.z, m, bound, eps, fine);
}

} // verus!
