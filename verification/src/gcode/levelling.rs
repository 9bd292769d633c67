//! What the streamed lines of a job make the machine do.
use vstd::prelude::*;
use crate::arith::{
    double_text, fixed, minus, narrow, over, plus, single1, single_of, times, to_unsigned,
    wide_times, wide_to_i32, Arithmetic, Double, Op, Scalar,
};
use crate::gcode::meaning::{
    asks_for_move, code_in_force, is_code, last_number, lemma_line_moves, lemma_millimetres,
    lemma_stream_words_say, lemma_words_say, length_of_number, length_slack, metric_code,
};
use crate::gcode::parser::{
    after_words, arc_points, center_of, chain, millimetres, no_axes, path_of, with_words, Parser,
};
use crate::gcode::spelling::{lemma_spell_push, lemma_spelled_read, numeral, spell, word};
use crate::gcode::transform::{
    arc_lines, chunk_line, chunks, line_out, move_lines, pivot_of, reading_of, scaled, stream_of,
    streamed, word_text, ModalState, Shape,
};
use crate::gcode::words::{lemma_comments_hold_no_words, parsed_words, stripped, Word};
use crate::geometry::{
    between, lemma_lerp, lemma_part, lemma_square, lemma_turned, placed3, share, square_slack,
    turned, way_slack,
};
use crate::grbl::heightmap::{height_at, Plane};
use crate::grbl::state::{spec_lerp, Orientation, Segment, Vec3};
use crate::lines::spaced;
use crate::measure::{
    extent, gives, lemma_product, lemma_worth_of_constants, lemma_worth_order, near, precise,
    wide_finite, wide_gives, wide_precise, wide_worth, worth,
};
use crate::text::natural_of;

verus! {

/// A unit in the last of `places` digits behind the point.
pub open spec fn last_place(places: u8) -> real
    decreases places,
{
    if places == 0 {
        1 as real
    } else {
        last_place((places - 1) as u8) / 10 as real
    }
}

/// Whether numbers are written in digits that are read back as the number, up to half a unit in the
/// last place, and small whole numbers are read as themselves.
pub open spec fn legible<A: Arithmetic>(a: &A, bound: real, fine: real) -> bool {
    &&& forall|x: Scalar, places: u8|
        #![trigger fixed(a, x, places)]
        x.finite() && extent(worth(x)) <= bound && places <= 4 ==> numeral(fixed(a, x, places))
            && wide_gives(
            double_text(a, fixed(a, x, places)),
            worth(x),
            last_place(places) / 2 as real + fine,
        )
    &&& forall|t: Seq<char>|
        #![trigger natural_of(t)]
        natural_of(t) is Some && natural_of(t)->0 <= 100 ==> numeral(t) && wide_to_i32(
            a,
            double_text(a, t),
        ) == natural_of(t)->0
}

/// The words of a streamed move.
pub open spec fn move_words(
    rapid: bool,
    x: Seq<char>,
    y: Seq<char>,
    z: Seq<char>,
    feed: Option<Seq<char>>,
) -> Seq<(char, Seq<char>)> {
    let to = seq![
        ('G', seq!['9', '0']),
        ('G', seq!['2', '1']),
        (
            'G',
            if rapid {
                seq!['0']
            } else {
                seq!['1']
            },
        ),
        ('X', x),
        ('Y', y),
        ('Z', z),
    ];
    match feed {
        Some(f) => to.push(('F', f)),
        None => to,
    }
}

/// The text of the words of a streamed move.
proof fn lemma_move_spelled(
    rapid: bool,
    x: Seq<char>,
    y: Seq<char>,
    z: Seq<char>,
    feed: Option<Seq<char>>,
)
    ensures
        ({
            let head = if rapid {
                "G90 G21 G0 X"@
            } else {
                "G90 G21 G1 X"@
            };
            let to = x + " Y"@ + y + " Z"@ + z;
            spell(move_words(rapid, x, y, z, feed)) == match feed {
                Some(f) => head + to + " F"@ + f,
                None => head + to,
            }
        }),
{
    reveal_strlit("G90 G21 G0 X");
    reveal_strlit("G90 G21 G1 X");
    reveal_strlit(" Y");
    reveal_strlit(" Z");
    reveal_strlit(" F");
    let g = if rapid {
        seq!['0']
    } else {
        seq!['1']
    };
    let head = if rapid {
        "G90 G21 G0 X"@
    } else {
        "G90 G21 G1 X"@
    };
    let w1 = seq![('G', seq!['9', '0'])];
    let w2 = w1.push(('G', seq!['2', '1']));
    let w3 = w2.push(('G', g));
    let w4 = w3.push(('X', x));
    let w5 = w4.push(('Y', y));
    let w6 = w5.push(('Z', z));
    lemma_spell_push(w1, ('G', seq!['2', '1']));
    lemma_spell_push(w2, ('G', g));
    lemma_spell_push(w3, ('X', x));
    lemma_spell_push(w4, ('Y', y));
    lemma_spell_push(w5, ('Z', z));
    assert(spell(w1) == seq!['G', '9', '0']);
    assert(spell(w2) == seq!['G', '9', '0', ' ', 'G', '2', '1']);
    let s3 = spell(w3);
    assert(s3 + seq![' ', 'X'] == head);
    assert(spell(w4) == head + x) by {
        assert(s3 + seq![' '] + word('X', x) == s3 + seq![' ', 'X'] + x);
    }
    let s4 = head + x;
    assert(spell(w5) == s4 + " Y"@ + y) by {
        assert(s4 + seq![' '] + word('Y', y) == s4 + " Y"@ + y);
    }
    let s5 = s4 + " Y"@ + y;
    assert(spell(w6) == s5 + " Z"@ + z) by {
        assert(s5 + seq![' '] + word('Z', z) == s5 + " Z"@ + z);
    }
    let s6 = s5 + " Z"@ + z;
    assert(s6 == head + (x + " Y"@ + y + " Z"@ + z));
    assert(move_words(rapid, x, y, z, None) == w6);
    if let Some(f) = feed {
        lemma_spell_push(w6, ('F', f));
        assert(s6 + seq![' '] + word('F', f) == s6 + " F"@ + f);
    }
}

/// A streamed line is made of these words.
proof fn lemma_chunk_spelled<A: Arithmetic>(
    a: &A,
    shape: Shape,
    start: Vec3,
    end: Vec3,
    rapid: bool,
    feed: Scalar,
    k: u64,
    n: u64,
) -> (r: (Scalar, Scalar, Scalar))
    ensures
        ({
            let p = spec_lerp(a, start, end, over(a, single_of(a, k), single_of(a, n)));
            let (x, y) = shape.orient.placed(p.x, p.y);
            let rise = match shape.plane {
                Some(plane) => height_at(a, plane, x, y),
                None => Scalar { bits: 0 },
            };
            &&& r == (x, y, plus(a, p.z, rise))
            &&& chunk_line(a, shape, start, end, rapid, feed, k, n) == spell(
                move_words(
                    rapid,
                    fixed(a, x, 3),
                    fixed(a, y, 3),
                    fixed(a, r.2, 4),
                    feed_text(a, rapid, feed),
                ),
            )
        }),
{
    let p = spec_lerp(a, start, end, over(a, single_of(a, k), single_of(a, n)));
    let (x, y) = shape.orient.placed(p.x, p.y);
    let rise = match shape.plane {
        Some(plane) => height_at(a, plane, x, y),
        None => Scalar { bits: 0 },
    };
    let z = plus(a, p.z, rise);
    lemma_move_spelled(
        rapid,
        fixed(a, x, 3),
        fixed(a, y, 3),
        fixed(a, z, 4),
        feed_text(a, rapid, feed),
    );
    (x, y, z)
}

/// The feed that a line gives: only to a move that is not a rapid one, and only if there is one.
pub open spec fn feed_text<A: Arithmetic>(a: &A, rapid: bool, feed: Scalar) -> Option<Seq<char>> {
    if !rapid && (Scalar { bits: 0 }).below(feed) {
        Some(fixed(a, feed, 1))
    } else {
        None
    }
}

/// Where a streamed line leads.
proof fn lemma_chunk_place<A: Arithmetic>(
    a: &A,
    shape: Shape,
    start: Vec3,
    end: Vec3,
    rapid: bool,
    feed: Scalar,
    k: u64,
    n: u64,
    m: real,
    tiny: real,
    bound: real,
    eps: real,
) -> (r: (Scalar, Scalar, Scalar))
    requires
        precise(a, bound, eps),
        precise(a, 2 as real, tiny),
        1 <= k <= n <= 0x100_0000,
        placed3(start, m) && placed3(end, m),
        m >= 1 as real,
        6 as real * m + 6 as real <= bound,
        0 as real <= eps && 8 as real * eps <= 1 as real,
        0 as real <= tiny && 8 as real * tiny <= 1 as real,
        shape.plane matches Some(p) ==> forall|x: Scalar, y: Scalar|
            (#[trigger] height_at(a, p, x, y)).finite() && extent(worth(height_at(a, p, x, y)))
                <= m,
    ensures
        ({
            let t = share(k as int, n as int);
            let (x, y) = turned(
                shape.orient,
                between(worth(start.x), worth(end.x), t),
                between(worth(start.y), worth(end.y), t),
            );
            let z = between(worth(start.z), worth(end.z), t);
            let d = way_slack(m, tiny, eps);
            &&& gives(r.0, x, d) && extent(worth(r.0)) <= 2 as real * m
            &&& gives(r.1, y, d) && extent(worth(r.1)) <= 2 as real * m
            &&& gives(r.2, z + surface_at(a, shape.plane, r.0, r.1), d + eps) && extent(
                worth(r.2),
            ) <= 4 as real * m
            &&& chunk_line(a, shape, start, end, rapid, feed, k, n) == spell(
                move_words(
                    rapid,
                    fixed(a, r.0, 3),
                    fixed(a, r.1, 3),
                    fixed(a, r.2, 4),
                    feed_text(a, rapid, feed),
                ),
            )
        }),
{
    lemma_worth_of_constants();
    let (u, v, w) = lemma_chunk_spelled(a, shape, start, end, rapid, feed, k, n);
    let t = over(a, single_of(a, k), single_of(a, n));
    let part = share(k as int, n as int);
    assert(tiny * m >= 0 as real && way_slack(m, tiny, eps) <= m) by (nonlinear_arith)
        requires
            way_slack(m, tiny, eps) == 2 as real * (tiny * m) + 4 as real * eps,
            0 as real <= tiny && 8 as real * tiny <= 1 as real,
            8 as real * eps <= 1 as real,
            m >= 1 as real,
    ;
    lemma_part(a, k, n, tiny);
    lemma_lerp(a, start, end, t, part, m, tiny, bound, eps);
    let p = spec_lerp(a, start, end, t);
    lemma_turned(shape.orient, p.x, p.y);
    lemma_within(worth(start.x), worth(end.x), part, m);
    lemma_within(worth(start.y), worth(end.y), part, m);
    lemma_within(worth(start.z), worth(end.z), part, m);
    let rise = match shape.plane {
        Some(plane) => height_at(a, plane, u, v),
        None => Scalar { bits: 0 },
    };
    assert(gives(w, worth(p.z) + worth(rise), eps));
    assert(surface_at(a, shape.plane, u, v) == worth(rise));
    (u, v, w)
}

/// What the machine does on a line that was spelled out for a point.
proof fn lemma_move_read<A: Arithmetic>(
    a: &A,
    u: Scalar,
    v: Scalar,
    w: Scalar,
    rapid: bool,
    feed: Scalar,
    machine: Parser,
    line: usize,
    reach: real,
    bound: real,
    eps: real,
    fine: real,
)
    requires
        wide_precise(a, bound, eps, bound, fine),
        legible(a, bound, fine),
        feed.finite() && extent(worth(feed)) <= bound,
        u.finite() && v.finite() && w.finite(),
        extent(worth(u)) <= reach - 2 as real,
        extent(worth(v)) <= reach - 2 as real,
        extent(worth(w)) <= reach - 2 as real,
        30 as real * reach + 1 as real <= bound,
        0 as real <= eps,
        0 as real <= fine <= 1 as real,
    ensures
        ({
            let text = spell(
                move_words(
                    rapid,
                    fixed(a, u, 3),
                    fixed(a, v, 3),
                    fixed(a, w, 4),
                    feed_text(a, rapid, feed),
                ),
            );
            let (after, segments) = after_words(a, machine, parsed_words(a, text), line);
            let read = fine + length_slack(reach, eps, fine);
            &&& segments.len() == 1
            &&& segments[0].start == machine.pos
            &&& segments[0].end == after.pos
            &&& segments[0].rapid == rapid
            &&& near(worth(after.pos.x), worth(u), 1 as real / 2000 as real + read)
            &&& near(worth(after.pos.y), worth(v), 1 as real / 2000 as real + read)
            &&& near(worth(after.pos.z), worth(w), 1 as real / 20000 as real + read)
            &&& fed(a, parsed_words(a, text), rapid, feed, fine)
        }),
{
    let (tx, ty, tz) = (fixed(a, u, 3), fixed(a, v, 3), fixed(a, w, 4));
    let given = feed_text(a, rapid, feed);
    let ws = move_words(rapid, tx, ty, tz, given);
    lemma_number_words(a, bound, fine);
    assert(numeral(tx) && numeral(ty) && numeral(tz));
    assert(given matches Some(f) ==> numeral(f));
    assert forall|k: int| 0 <= k < ws.len() implies 'A' <= (#[trigger] ws[k]).0 <= 'Z' && numeral(
        ws[k].1,
    ) by {
    }
    lemma_spelled_read(a, ws);
    let words = parsed_words(a, spell(ws));
    lemma_move_words_mean(a, machine, words, line, rapid, tx, ty, tz, given, bound, fine);
    reveal_with_fuel(last_place, 5);
    lemma_worth_of_constants();
    lemma_worth_order(Scalar { bits: 0 }, feed);
    let q = Parser { pos: machine.pos, absolute: true, metric: true, motion: machine.motion };
    lemma_millimetres(a, q, double_text(a, tx), reach, bound, eps, fine);
    lemma_millimetres(a, q, double_text(a, ty), reach, bound, eps, fine);
    lemma_millimetres(a, q, double_text(a, tz), reach, bound, eps, fine);
}

/// A streamed line makes the machine do one straight move, whatever modes it is in and wherever it
/// is: in absolute millimetres to the point of the job's move, turned as the job lies, and raised by
/// the height of the surface there, where the tool really goes. It is a rapid one exactly if the
/// move is, and else it has the move's feed.
pub proof fn lemma_streamed_chunk_read<A: Arithmetic>(
    a: &A,
    shape: Shape,
    start: Vec3,
    end: Vec3,
    rapid: bool,
    feed: Scalar,
    k: u64,
    n: u64,
    machine: Parser,
    line: usize,
    m: real,
    tiny: real,
    bound: real,
    eps: real,
    fine: real,
)
    requires
        precise(a, bound, eps),
        precise(a, 2 as real, tiny),
        wide_precise(a, bound, eps, bound, fine),
        legible(a, bound, fine),
        1 <= k <= n <= 0x100_0000,
        placed3(start, m) && placed3(end, m),
        feed.finite() && extent(worth(feed)) <= bound,
        m >= 1 as real,
        120 as real * m + 250 as real <= bound,
        0 as real <= eps && 8 as real * eps <= 1 as real,
        0 as real <= tiny && 8 as real * tiny <= 1 as real,
        0 as real <= fine <= 1 as real,
        shape.plane matches Some(p) ==> forall|x: Scalar, y: Scalar|
            (#[trigger] height_at(a, p, x, y)).finite() && extent(worth(height_at(a, p, x, y)))
                <= m,
    ensures
        ({
            let text = chunk_line(a, shape, start, end, rapid, feed, k, n);
            let (after, segments) = after_words(a, machine, parsed_words(a, text), line);
            let t = share(k as int, n as int);
            let (x, y) = turned(
                shape.orient,
                between(worth(start.x), worth(end.x), t),
                between(worth(start.y), worth(end.y), t),
            );
            let z = between(worth(start.z), worth(end.z), t);
            let d = way_slack(m, tiny, eps);
            let read = fine + length_slack(4 as real * m + 2 as real, eps, fine);
            &&& segments.len() == 1
            &&& segments[0].start == machine.pos
            &&& segments[0].end == after.pos
            &&& segments[0].rapid == rapid
            &&& fed(a, parsed_words(a, text), rapid, feed, fine)
            &&& exists|u: Scalar, v: Scalar|
                {
                    &&& near(worth(u), x, d)
                    &&& near(worth(v), y, d)
                    &&& near(worth(after.pos.x), worth(u), 1 as real / 2000 as real + read)
                    &&& near(worth(after.pos.y), worth(v), 1 as real / 2000 as real + read)
                    &&& near(
                        worth(after.pos.z),
                        z + #[trigger] surface_at(a, shape.plane, u, v),
                        1 as real / 20000 as real + read + d + eps,
                    )
                }
        }),
{
    let (u, v, w) = lemma_chunk_place(
        a,
        shape,
        start,
        end,
        rapid,
        feed,
        k,
        n,
        m,
        tiny,
        bound,
        eps,
    );
    let reach = 4 as real * m + 2 as real;
    lemma_move_read(a, u, v, w, rapid, feed, machine, line, reach, bound, eps, fine);
    let h = surface_at(a, shape.plane, u, v);
}

/// Whether a line gives the feed of its move, where there is one.
pub open spec fn fed<A: Arithmetic>(
    a: &A,
    words: Seq<Word>,
    rapid: bool,
    feed: Scalar,
    fine: real,
) -> bool {
    match last_number(words, 'F') {
        Some(f) => !rapid && worth(feed) > 0 as real && wide_gives(
            f,
            worth(feed),
            1 as real / 20 as real + fine,
        ),
        None => rapid || worth(feed) <= 0 as real,
    }
}

/// The lines of a straight move lead along it in equal steps, and the last one leads to its end.
pub proof fn lemma_streamed_move_read<A: Arithmetic>(
    a: &A,
    shape: Shape,
    start: Vec3,
    end: Vec3,
    rapid: bool,
    feed: Scalar,
    k: int,
    machine: Parser,
    line: usize,
    m: real,
    tiny: real,
    bound: real,
    eps: real,
    fine: real,
)
    requires
        precise(a, bound, eps),
        precise(a, 2 as real, tiny),
        wide_precise(a, bound, eps, bound, fine),
        legible(a, bound, fine),
        0 <= k < move_lines(a, shape, start, end, rapid, feed).len() <= 0x100_0000,
        placed3(start, m) && placed3(end, m),
        feed.finite() && extent(worth(feed)) <= bound,
        m >= 1 as real,
        120 as real * m + 250 as real <= bound,
        0 as real <= eps && 8 as real * eps <= 1 as real,
        0 as real <= tiny && 8 as real * tiny <= 1 as real,
        0 as real <= fine <= 1 as real,
        shape.plane matches Some(p) ==> forall|x: Scalar, y: Scalar|
            (#[trigger] height_at(a, p, x, y)).finite() && extent(worth(height_at(a, p, x, y)))
                <= m,
    ensures
        ({
            let lines = move_lines(a, shape, start, end, rapid, feed);
            let (after, segments) = after_words(a, machine, parsed_words(a, lines[k]), line);
            let t = share(k + 1, lines.len() as int);
            let (x, y) = turned(
                shape.orient,
                between(worth(start.x), worth(end.x), t),
                between(worth(start.y), worth(end.y), t),
            );
            let d = way_slack(m, tiny, eps);
            let read = fine + length_slack(4 as real * m + 2 as real, eps, fine);
            &&& segments.len() == 1 && segments[0].rapid == rapid
            &&& near(worth(after.pos.x), x, 1 as real / 2000 as real + read + d)
            &&& near(worth(after.pos.y), y, 1 as real / 2000 as real + read + d)
            &&& shape.plane is None ==> near(
                worth(after.pos.z),
                between(worth(start.z), worth(end.z), t),
                1 as real / 20000 as real + read + d + eps,
            )
            &&& k + 1 == lines.len() ==> (x, y) == turned(
                shape.orient,
                worth(end.x),
                worth(end.y),
            )
        }),
{
    let lines = move_lines(a, shape, start, end, rapid, feed);
    let n = lines.len() as u64;
    assert(lines[k] == chunk_line(a, shape, start, end, rapid, feed, (k + 1) as u64, n));
    lemma_streamed_chunk_read(
        a,
        shape,
        start,
        end,
        rapid,
        feed,
        (k + 1) as u64,
        n,
        machine,
        line,
        m,
        tiny,
        bound,
        eps,
        fine,
    );
    if k + 1 == n {
        let whole = n as real;
        assert(whole / whole == 1 as real) by (nonlinear_arith)
            requires
                whole >= 1 as real,
        ;
        let (p, q) = (worth(end.x) - worth(start.x), worth(end.y) - worth(start.y));
        assert(p * 1 as real == p && q * 1 as real == q) by (nonlinear_arith);
    }
}

/// The height of the surface at a place; zero without a height map.
pub open spec fn surface_at<A: Arithmetic>(
    a: &A,
    plane: Option<Plane>,
    x: Scalar,
    y: Scalar,
) -> real {
    match plane {
        Some(p) => worth(height_at(a, p, x, y)),
        None => 0 as real,
    }
}

proof fn lemma_within(p: real, q: real, t: real, m: real)
    requires
        extent(p) <= m,
        extent(q) <= m,
        0 as real <= t <= 1 as real,
    ensures
        extent(between(p, q, t)) <= m,
{
    assert(p + (q - p) * t == p * (1 as real - t) + q * t) by (nonlinear_arith);
    assert(-m <= p * (1 as real - t) + q * t <= m) by (nonlinear_arith)
        requires
            -m <= p <= m,
            -m <= q <= m,
            0 as real <= t <= 1 as real,
    ;
}

/// How the codes of a streamed line are read.
proof fn lemma_number_words<A: Arithmetic>(a: &A, bound: real, fine: real)
    requires
        legible(a, bound, fine),
    ensures
        numeral(seq!['9', '0']) && wide_to_i32(a, double_text(a, seq!['9', '0'])) == 90,
        numeral(seq!['2', '1']) && wide_to_i32(a, double_text(a, seq!['2', '1'])) == 21,
        numeral(seq!['0']) && wide_to_i32(a, double_text(a, seq!['0'])) == 0,
        numeral(seq!['1']) && wide_to_i32(a, double_text(a, seq!['1'])) == 1,
{
    reveal_with_fuel(natural_of, 3);
    assert(seq!['9', '0'].drop_last() == seq!['9']);
    assert(seq!['2', '1'].drop_last() == seq!['2']);
    assert(natural_of(seq!['9', '0']) == Some(90nat));
    assert(natural_of(seq!['2', '1']) == Some(21nat));
    assert(natural_of(seq!['0']) == Some(0nat));
    assert(natural_of(seq!['1']) == Some(1nat));
}

/// What the words of a streamed line mean.
proof fn lemma_move_words_mean<A: Arithmetic>(
    a: &A,
    machine: Parser,
    words: Seq<Word>,
    line: usize,
    rapid: bool,
    x: Seq<char>,
    y: Seq<char>,
    z: Seq<char>,
    feed: Option<Seq<char>>,
    bound: real,
    fine: real,
)
    requires
        legible(a, bound, fine),
        words == move_words(rapid, x, y, z, feed).map_values(
            |w: (char, Seq<char>)| Word { letter: w.0 as u8, value: double_text(a, w.1) },
        ),
    ensures
        ({
            let (after, segments) = after_words(a, machine, words, line);
            let q = Parser {
                pos: machine.pos,
                absolute: true,
                metric: true,
                motion: machine.motion,
            };
            &&& segments.len() == 1
            &&& segments[0].start == machine.pos
            &&& segments[0].end == after.pos
            &&& segments[0].rapid == rapid
            &&& after.pos.x == millimetres(a, q, double_text(a, x))
            &&& after.pos.y == millimetres(a, q, double_text(a, y))
            &&& after.pos.z == millimetres(a, q, double_text(a, z))
            &&& last_number(words, 'F') == match feed {
                Some(f) => Some(double_text(a, f)),
                None => None,
            }
        }),
{
    lemma_number_words(a, bound, fine);
    let ws = move_words(rapid, x, y, z, feed);
    let short = words.take(6);
    assert(words.len() == ws.len());
    assert forall|k: int| 0 <= k < words.len() implies #[trigger] words[k] == (Word {
        letter: ws[k].0 as u8,
        value: double_text(a, ws[k].1),
    }) by {
    }
    reveal_with_fuel(with_words, 8);
    reveal_with_fuel(last_number, 8);
    let w1 = words.take(1);
    let w2 = words.take(2);
    let w3 = words.take(3);
    let w4 = words.take(4);
    let w5 = words.take(5);
    assert(w1.drop_last() == Seq::<Word>::empty());
    assert(w2.drop_last() == w1);
    assert(w3.drop_last() == w2);
    assert(w4.drop_last() == w3);
    assert(w5.drop_last() == w4);
    assert(short.drop_last() == w5);
    assert(w1.last() == words[0] && w2.last() == words[1] && w3.last() == words[2] && w4.last()
        == words[3] && w5.last() == words[4] && short.last() == words[5]);
    let (q, axes) = with_words(a, machine, short);
    assert(q.absolute && q.metric && q.pos == machine.pos && axes.motion);
    assert(q.motion == if rapid {
        0i32
    } else {
        1i32
    });
    if feed is Some {
        assert(words.len() == 7);
        assert(words.drop_last() == short);
        assert(words.last() == words[6] && words[6].letter == 70);
    } else {
        assert(words == short);
    }
    assert(with_words(a, machine, words) == (q, axes));
}

/// Wherever two streamed moves lead to the same place on the table, from the same height of the job,
/// they are the same line: the height of the surface is that of the place to which the tool goes,
/// whatever the orientation of the job and whichever moves they are part of.
pub proof fn lemma_same_place_same_line<A: Arithmetic>(
    a: &A,
    shape: Shape,
    start: Vec3,
    end: Vec3,
    k: u64,
    n: u64,
    other: Orientation,
    from: Vec3,
    to: Vec3,
    j: u64,
    l: u64,
    rapid: bool,
    feed: Scalar,
)
    requires
        ({
            let p = spec_lerp(a, start, end, over(a, single_of(a, k), single_of(a, n)));
            let q = spec_lerp(a, from, to, over(a, single_of(a, j), single_of(a, l)));
            shape.orient.placed(p.x, p.y) == other.placed(q.x, q.y) && p.z == q.z
        }),
    ensures
        chunk_line(a, shape, start, end, rapid, feed, k, n) == chunk_line(
            a,
            Shape { plane: shape.plane, orient: other },
            from,
            to,
            rapid,
            feed,
            j,
            l,
        ),
{
}

/// A point of a job where it comes to lie.
pub open spec fn laid(o: Orientation, v: Vec3) -> Vec3 {
    let (x, y) = o.placed(v.x, v.y);
    Vec3 { x, y, z: v.z }
}

/// Streaming a move with its axes exchanged is streaming, as it was written, the move whose points
/// have been exchanged, as long as a sum does not depend on the order of its terms.
pub proof fn lemma_exchanged_move<A: Arithmetic>(
    a: &A,
    plane: Option<Plane>,
    start: Vec3,
    end: Vec3,
    rapid: bool,
    feed: Scalar,
)
    requires
        forall|x: Scalar, y: Scalar| plus(a, x, y) == #[trigger] plus(a, y, x),
    ensures
        move_lines(
            a,
            Shape { plane, orient: Orientation::Transpose },
            start,
            end,
            rapid,
            feed,
        ) == move_lines(
            a,
            Shape { plane, orient: Orientation::R0 },
            laid(Orientation::Transpose, start),
            laid(Orientation::Transpose, end),
            rapid,
            feed,
        ),
{
    let (s, e) = (laid(Orientation::Transpose, start), laid(Orientation::Transpose, end));
    let turned = Shape { plane, orient: Orientation::Transpose };
    let written = Shape { plane, orient: Orientation::R0 };
    let n = chunks(a, plane is Some, start, end);
    assert(n == chunks(a, plane is Some, s, e));
    assert(move_lines(a, turned, start, end, rapid, feed) =~= move_lines(
        a,
        written,
        s,
        e,
        rapid,
        feed,
    ));
}

/// Whether fractions are rounded up to whole numbers, and these are counted.
pub open spec fn rounds_up<A: Arithmetic>(a: &A) -> bool {
    forall|x: Scalar, max: u64|
        #![trigger to_unsigned(a, single1(a, Op::Ceil, x), max)]
        x.finite() && 0 as real <= worth(x) <= 0x100_0000 as real && max >= 0x100_0001 ==> {
            let n = to_unsigned(a, single1(a, Op::Ceil, x), max) as real;
            worth(x) <= n < worth(x) + 1 as real
        }
}

/// A levelled move is cut into pieces of no more than a millimetre in the plane, and into no more of
/// them than it takes, up to rounding. Without a height map every move stays whole.
pub proof fn lemma_chunk_length<A: Arithmetic>(
    a: &A,
    start: Vec3,
    end: Vec3,
    m: real,
    bound: real,
    eps: real,
    big: real,
    coarse: real,
)
    requires
        precise(a, bound, eps),
        precise(a, big, coarse),
        rounds_up(a),
        placed3(start, m) && placed3(end, m),
        1 as real <= m <= 0x1_0000 as real,
        0 as real <= eps && 1001 as real * eps <= 1 as real,
        0 as real <= coarse <= m * m,
        10 as real * m + 10 as real <= bound,
        20 as real * (m * m) + 40 as real * m + 20 as real + 10 as real * coarse <= big,
    ensures
        chunks(a, false, start, end) == 1,
        ({
            let n = chunks(a, true, start, end) as real;
            let (dx, dy) = (worth(end.x) - worth(start.x), worth(end.y) - worth(start.y));
            let way = dx * dx + dy * dy;
            let slack = 2 as real * square_slack(m, eps, coarse) + 2 as real * coarse;
            &&& n >= 1 as real
            &&& way <= (n + eps) * (n + eps) + slack
            &&& n > 1 as real ==> (n - 1 as real - eps) * (n - 1 as real - eps) <= way + slack
        }),
{
    lemma_worth_of_constants();
    let one = Scalar { bits: 0x3f80_0000 };
    let short = Scalar { bits: 0x3a83_126f };
    lemma_square(a, end.x, start.x, m, bound, eps, big, coarse);
    lemma_square(a, end.y, start.y, m, bound, eps, big, coarse);
    let dx = minus(a, end.x, start.x);
    let dy = minus(a, end.y, start.y);
    let (x2, y2) = (times(a, dx, dx), times(a, dy, dy));
    let (ex, ey) = (worth(end.x) - worth(start.x), worth(end.y) - worth(start.y));
    let way = ex * ex + ey * ey;
    let e = square_slack(m, eps, coarse);
    let slack = 2 as real * e + 2 as real * coarse;
    assert(0 as real <= e <= m + coarse) by (nonlinear_arith)
        requires
            e == eps * (4 as real * m + 1 as real) + coarse,
            0 as real <= eps && 1001 as real * eps <= 1 as real,
            coarse >= 0 as real,
            m >= 1 as real,
    ;
    assert(m * m >= m) by (nonlinear_arith)
        requires
            m >= 1 as real,
    ;
    let sum = plus(a, x2, y2);
    assert(gives(sum, worth(x2) + worth(y2), coarse));
    let len = single1(a, Op::Sqrt, sum);
    let w = worth(len);
    assert(near(w * w, way, slack));
    assert(w * w <= 16 as real * (m * m));
    assert(w <= 4 as real * m) by (nonlinear_arith)
        requires
            w >= 0 as real,
            w * w <= 16 as real * (m * m),
            m >= 1 as real,
    ;
    lemma_worth_order(len, short);
    let n = chunks(a, true, start, end) as real;
    if len.below(short) {
        assert(way <= (1 as real + eps) * (1 as real + eps) + slack) by (nonlinear_arith)
            requires
                w * w >= way - slack,
                0 as real <= w <= 1 as real,
                eps >= 0 as real,
        ;
    } else {
        let q = over(a, len, one);
        assert(w / 1 as real == w) by (nonlinear_arith);
        assert(gives(q, w, eps));
        assert(1000000000 as real * worth(short) >= 1000000 as real);
        assert(1000 as real * w >= 1 as real);
        assert(usize::MAX as u64 >= 0x100_0001);
        assert(worth(q) <= n < worth(q) + 1 as real);
        assert(worth(q) > 0 as real);
        assert(n >= 1 as real);
        assert(way <= (n + eps) * (n + eps) + slack) by (nonlinear_arith)
            requires
                w * w >= way - slack,
                0 as real <= w <= n + eps,
        ;
        if n > 1 as real {
            assert(n >= 2 as real);
            assert((n - 1 as real - eps) * (n - 1 as real - eps) <= way + slack)
                by (nonlinear_arith)
                requires
                    w * w <= way + slack,
                    0 as real <= n - 1 as real - eps <= w,
            ;
        }
    }
}

/// A levelled move that does not go sideways is one line.
pub proof fn lemma_upright_move_whole<A: Arithmetic>(
    a: &A,
    shape: Shape,
    start: Vec3,
    end: Vec3,
    rapid: bool,
    feed: Scalar,
    tiny: real,
)
    requires
        precise(a, 2 as real, tiny),
        0 as real <= 10000000 as real * tiny <= 1 as real,
        start.x == end.x && start.y == end.y,
        start.x.finite() && start.y.finite(),
    ensures
        move_lines(a, shape, start, end, rapid, feed).len() == 1,
{
    lemma_worth_of_constants();
    let dx = minus(a, end.x, start.x);
    let dy = minus(a, end.y, start.y);
    assert(gives(dx, 0 as real, tiny) && gives(dy, 0 as real, tiny));
    let (u, v) = (worth(dx), worth(dy));
    assert(0 as real <= u * u <= tiny && 0 as real <= v * v <= tiny) by (nonlinear_arith)
        requires
            extent(u) <= tiny,
            extent(v) <= tiny,
            0 as real <= tiny <= 1 as real,
    ;
    let (x2, y2) = (times(a, dx, dx), times(a, dy, dy));
    assert(gives(x2, u * u, tiny) && gives(y2, v * v, tiny));
    let sum = plus(a, x2, y2);
    assert(gives(sum, worth(x2) + worth(y2), tiny));
    let len = single1(a, Op::Sqrt, sum);
    let w = worth(len);
    assert(w * w <= 6 as real * tiny);
    let short = Scalar { bits: 0x3a83_126f };
    assert(1000 as real * w < 1 as real) by (nonlinear_arith)
        requires
            w * w <= 6 as real * tiny,
            10000000 as real * tiny <= 1 as real,
            w >= 0 as real,
    ;
    lemma_worth_order(len, short);
}

/// The lines of the moves along segments, one after the other.
pub open spec fn segment_lines<A: Arithmetic>(
    a: &A,
    shape: Shape,
    segments: Seq<Segment>,
    feed: Scalar,
) -> Seq<Seq<char>>
    decreases segments.len(),
{
    if segments.len() == 0 {
        Seq::empty()
    } else {
        let s = segments.last();
        segment_lines(a, shape, segments.drop_last(), feed) + move_lines(
            a,
            shape,
            s.start,
            s.end,
            s.rapid,
            feed,
        )
    }
}

/// The modes of the stream, as those of the preview.
pub open spec fn as_parser(m: ModalState) -> Parser {
    Parser { pos: m.pos, absolute: m.absolute, metric: m.metric, motion: m.motion }
}

/// Whether a length in millimetres is the same number however it is come by.
pub open spec fn plain_millimetres<A: Arithmetic>(a: &A) -> bool {
    forall|v: Double|
        times(a, narrow(a, v), Scalar { bits: 0x3f80_0000 }) == narrow(
            a,
            #[trigger] wide_times(a, v, Double { bits: 0x3ff0_0000_0000_0000 }),
        )
}

/// A line of a job in millimetres is streamed along the segments that the preview shows for it, and
/// leaves the same position and modes.
pub proof fn lemma_stream_follows_preview<A: Arithmetic>(
    a: &A,
    shape: Shape,
    m: ModalState,
    line: Seq<char>,
    number: usize,
)
    requires
        plain_millimetres(a),
        0 <= m.motion <= 3,
        code_in_force(a, parsed_words(a, line), seq![20, 21], metric_code(m.metric)) == 21,
    ensures
        ({
            let words = parsed_words(a, line);
            let (n, lines) = line_out(a, shape, m, line);
            let (q, segments) = after_words(a, as_parser(m), words, number);
            &&& as_parser(n) == q
            &&& asks_for_move(a, words) ==> {
                let others = reading_of(a, m, words).others;
                lines == (if others.len() > 0 {
                    seq![spaced(others)]
                } else {
                    Seq::empty()
                }) + segment_lines(a, shape, segments, n.feed)
            }
        }),
{
    let words = parsed_words(a, line);
    let p = as_parser(m);
    lemma_words_say(a, p, words);
    lemma_stream_words_say(a, m, words);
    lemma_line_moves(a, p, words, number);
    let (q, axes) = with_words(a, p, words);
    let r = reading_of(a, m, words);
    assert(q.metric && r.modal.metric);
    assert forall|v: Double| #[trigger] scaled(a, r.modal, v) == millimetres(a, q, v) by {
        let product = wide_times(a, v, Double { bits: 0x3ff0_0000_0000_0000 });
    }
    if axes.motion {
        let (after, segments) = after_words(a, p, words, number);
        let target = after.pos;
        if q.motion == 0 || q.motion == 1 {
            let s = segments[0];
            assert(segments.drop_last() == Seq::<Segment>::empty());
            assert(segment_lines(a, shape, segments, r.modal.feed) =~= move_lines(
                a,
                shape,
                s.start,
                s.end,
                s.rapid,
                r.modal.feed,
            )) by {
                reveal_with_fuel(segment_lines, 2);
            }
        } else {
            let center = center_of(a, q, axes, target);
            assert(center == pivot_of(a, r.modal, axes, target));
            let points = arc_points(a, q.pos, target, center, q.motion == 2);
            lemma_arc_segments(a, shape, q.pos, points, r.modal.feed, number);
        }
    }
}

proof fn lemma_arc_segments<A: Arithmetic>(
    a: &A,
    shape: Shape,
    start: Vec3,
    points: Seq<Vec3>,
    feed: Scalar,
    line: usize,
)
    ensures
        arc_lines(a, shape, start, points, feed) == segment_lines(
            a,
            shape,
            chain(start, points, line),
            feed,
        ),
    decreases points.len(),
{
    let segments = chain(start, points, line);
    if points.len() > 0 {
        lemma_arc_segments(a, shape, start, points.drop_last(), feed, line);
        assert(segments.drop_last() == chain(start, points.drop_last(), line));
        let s = segments.last();
        assert(s.end == points.last());
    }
}

/// A whole job in millimetres leaves the tool of the stream where it leaves that of the preview.
pub proof fn lemma_stream_ends_with_preview<A: Arithmetic>(
    a: &A,
    shape: Shape,
    lines: Seq<Seq<char>>,
)
    requires
        plain_millimetres(a),
        forall|k: int, w: int|
            0 <= k < lines.len() && 0 <= w < parsed_words(a, lines[k]).len()
                ==> !is_code(
                a,
                #[trigger] parsed_words(a, #[trigger] lines[k])[w],
                seq![20],
            ),
        lines.len() <= usize::MAX,
    ensures
        as_parser(stream_of(a, shape, lines).modal) == path_of(a, lines).0,
        path_of(a, lines).0.metric,
        0 <= path_of(a, lines).0.motion <= 3,
    decreases lines.len(),
{
    if lines.len() > 0 {
        let front = lines.drop_last();
        assert forall|k: int, w: int|
            0 <= k < front.len() && 0 <= w < parsed_words(a, front[k]).len()
                implies !is_code(
            a,
            #[trigger] parsed_words(a, #[trigger] front[k])[w],
            seq![20],
        ) by {
            assert(front[k] == lines[k]);
        }
        lemma_stream_ends_with_preview(a, shape, front);
        let line = lines.last();
        let words = parsed_words(a, line);
        let bare = stripped(line);
        lemma_comments_hold_no_words(line);
        assert(parsed_words(a, bare) == words);
        let m = stream_of(a, shape, front).modal;
        let number = (lines.len() - 1) as usize;
        assert(lines[lines.len() - 1] == line);
        assert forall|w: int| 0 <= w < words.len() implies !is_code(
            a,
            #[trigger] words[w],
            seq![20],
        ) by {
            assert(words[w] == parsed_words(a, lines[lines.len() - 1])[w]);
        }
        lemma_stays_metric(a, words, 21);
        lemma_line_moves(a, as_parser(m), words, number);
        lemma_words_say(a, as_parser(m), words);
        if bare.len() == 0 {
            assert(words == Seq::<Word>::empty());
            assert(with_words(a, as_parser(m), words) == (
                as_parser(m),
                no_axes(),
            ));
        } else {
            lemma_stream_follows_preview(a, shape, m, bare, number);
        }
    }
}

proof fn lemma_stays_metric<A: Arithmetic>(a: &A, words: Seq<Word>, before: int)
    requires
        before == 21,
        forall|w: int|
            0 <= w < words.len() ==> !is_code(
                a,
                #[trigger] words[w],
                seq![20],
            ),
    ensures
        code_in_force(a, words, seq![20, 21], before) == 21,
    decreases words.len(),
{
    if words.len() > 0 {
        let front = words.drop_last();
        assert forall|w: int| 0 <= w < front.len() implies !is_code(
            a,
            #[trigger] front[w],
            seq![20],
        ) by {
            assert(front[w] == words[w]);
        }
        lemma_stays_metric(a, front, before);
        let last = words[words.len() - 1];
        let n = wide_to_i32(a, last.value) as int;
        assert(seq![20int][0] == 20);
        assert(n == 20 ==> seq![20int].contains(n));
    }
}

/// Whether a word neither moves, nor sets a mode that is resolved, nor gives a feed.
pub open spec fn bystander<A: Arithmetic>(a: &A, w: Word) -> bool {
    !(seq!['X', 'Y', 'Z', 'I', 'J', 'R', 'F'].contains(w.letter as char) || is_code(
        a,
        w,
        seq![0, 1, 2, 3, 20, 21, 90, 91],
    ))
}

/// No word is lost: those that have no part in the move come before it, in their order.
pub proof fn lemma_other_words_kept<A: Arithmetic>(a: &A, m: ModalState, words: Seq<Word>)
    ensures
        reading_of(a, m, words).others == words.filter(|w: Word| bystander(a, w)).map_values(
            |w: Word| word_text(a, w),
        ),
    decreases words.len(),
{
    let keeps = |w: Word| bystander(a, w);
    let texts = |w: Word| word_text(a, w);
    reveal(Seq::filter);
    if words.len() > 0 {
        let front = words.drop_last();
        let w = words.last();
        lemma_other_words_kept(a, m, front);
        lemma_bystander(a, w);
        if keeps(w) {
            assert(words.filter(keeps) == front.filter(keeps).push(w));
            assert(front.filter(keeps).push(w).map_values(texts) == front.filter(keeps).map_values(
                texts,
            ).push(word_text(a, w)));
        }
    } else {
        assert(words.filter(keeps).map_values(texts) == Seq::<Seq<char>>::empty());
    }
}

proof fn lemma_bystander<A: Arithmetic>(a: &A, w: Word)
    ensures
        bystander(a, w) == !(w.letter == 88 || w.letter == 89 || w.letter == 90 || w.letter == 73
            || w.letter == 74 || w.letter == 82 || w.letter == 70 || w.letter == 71 && {
            let n = wide_to_i32(a, w.value);
            0 <= n <= 3 || n == 20 || n == 21 || n == 90 || n == 91
        }),
{
    let letters = seq!['X', 'Y', 'Z', 'I', 'J', 'R', 'F'];
    assert(letters[0] == 'X' && letters[1] == 'Y' && letters[2] == 'Z' && letters[3] == 'I'
        && letters[4] == 'J' && letters[5] == 'R' && letters[6] == 'F');
    let codes = seq![0int, 1, 2, 3, 20, 21, 90, 91];
    assert(codes[0] == 0 && codes[1] == 1 && codes[2] == 2 && codes[3] == 3 && codes[4] == 20
        && codes[5] == 21 && codes[6] == 90 && codes[7] == 91);
}

/// A job that is neither levelled nor turned is streamed as it is, line by line.
pub proof fn lemma_untouched_job<A: Arithmetic>(a: &A, lines: Seq<Seq<char>>)
    requires
        lines.len() <= usize::MAX,
    ensures
        ({
            let (out, src) = streamed(a, Shape { plane: None, orient: Orientation::R0 }, lines);
            &&& out == lines
            &&& src.len() == lines.len()
            &&& forall|k: int| 0 <= k < src.len() ==> #[trigger] src[k] == k
        }),
{
}

/// Any other job is streamed line by line too: what a line becomes does not depend on the lines
/// behind it, and every line that is streamed for it is counted as coming from it.
pub proof fn lemma_stream_grows<A: Arithmetic>(
    a: &A,
    shape: Shape,
    lines: Seq<Seq<char>>,
    next: Seq<char>,
)
    requires
        lines.len() < usize::MAX,
    ensures
        ({
            let before = stream_of(a, shape, lines);
            let after = stream_of(a, shape, lines.push(next));
            &&& before.lines.is_prefix_of(after.lines)
            &&& before.src.is_prefix_of(after.src)
            &&& after.lines.len() == after.src.len() || before.lines.len() != before.src.len()
            &&& forall|k: int|
                before.src.len() <= k < after.src.len() ==> #[trigger] after.src[k] == lines.len()
            &&& stripped(next).len() == 0 ==> after == before
        }),
{
    let all = lines.push(next);
    assert(all.drop_last() == lines);
    assert(all.last() == next);
}

/// A length of a streamed line in millimetres, or in inches of 25.4 millimetres.
pub proof fn lemma_scaled<A: Arithmetic>(
    a: &A,
    mode: ModalState,
    v: Double,
    m: real,
    bound: real,
    eps: real,
    fine: real,
)
    requires
        precise(a, bound, eps),
        wide_precise(a, bound, eps, bound, fine),
        wide_finite(v) && extent(wide_worth(v)) <= m,
        60 as real * m + 60 as real <= bound,
        0 as real <= eps <= 1 as real,
    ensures
        gives(
            scaled(a, mode, v),
            length_of_number(wide_worth(v), mode.metric),
            28 as real * eps + m / 2500000 as real,
        ),
{
    lemma_worth_of_constants();
    let x = narrow(a, v);
    assert(gives(x, wide_worth(v), eps));
    let unit = if mode.metric {
        Scalar { bits: 0x3f80_0000 }
    } else {
        Scalar { bits: 0x41cb_3333 }
    };
    let full = if mode.metric {
        1 as real
    } else {
        254 as real / 10 as real
    };
    let e = 1 as real / 10000000 as real;
    assert(near(100000000 as real * worth(unit), 100000000 as real * full, 40 as real));
    assert(near(worth(unit), full, 4 as real * e));
    let (w, u) = (wide_worth(v), worth(unit));
    lemma_product(worth(x), u, w, full, eps, 4 as real * e);
    assert(eps * extent(full) <= 254 as real / 10 as real * eps && 4 as real * e * extent(w)
        <= m / 2500000 as real && eps * (4 as real * e) <= eps) by (nonlinear_arith)
        requires
            0 as real <= extent(full) <= 254 as real / 10 as real,
            0 as real <= extent(w) <= m,
            e == 1 as real / 10000000 as real,
            0 as real <= eps <= 1 as real,
    ;
    assert(extent(w * full) <= 26 as real * m) by (nonlinear_arith)
        requires
            extent(w) <= m,
            0 as real <= full <= 26 as real,
    ;
    assert(w * 1 as real == w) by (nonlinear_arith);
    let product = times(a, x, unit);
    assert(gives(product, worth(x) * u, eps));
}

} // verus!
