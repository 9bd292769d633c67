//! What the lines say that the panels send to the controller.
use vstd::prelude::*;
use crate::arith::{double_text, fixed, wide_to_i32, Arithmetic, Scalar};
use crate::gcode::levelling::{last_place, legible};
use crate::gcode::meaning::{code_in_force, is_code, last_number};
use crate::gcode::spelling::{
    lemma_numeral_negated, lemma_spell_push, lemma_spelled_read, numeral, sound_words, spell, word,
};
use crate::gcode::words::{parsed_words, Word};
use crate::grbl::engine::{approach_line, plunge_line, retract_line};
use crate::grbl::state::MachineState;
use crate::measure::{extent, wide_gives, worth};
use crate::text::{digit, digits_end, natural_of};
use crate::ui::controls::{action_lines, jog_line, JogAxis, MachineAction, RETRACT_Z};
use crate::ui::probe::set_height_line;

verus! {

/// Words as they are read.
pub open spec fn read_words<A: Arithmetic>(a: &A, ws: Seq<(char, Seq<char>)>) -> Seq<Word> {
    ws.map_values(|w: (char, Seq<char>)| Word { letter: w.0 as u8, value: double_text(a, w.1) })
}

/// Whether the last word with the letter `c` gives the number `v`, up to `d`.
pub open spec fn says(words: Seq<Word>, c: char, v: real, d: real) -> bool {
    match last_number(words, c) {
        Some(x) => wide_gives(x, v, d),
        None => false,
    }
}

/// Whether a number that is not negative is written without a sign, and a sign makes a number
/// negative.
pub open spec fn signs<A: Arithmetic>(a: &A, bound: real) -> bool {
    &&& forall|x: Scalar, places: u8|
        #![trigger fixed(a, x, places)]
        x.finite() && !x.negative() && worth(x) <= bound && places <= 4 ==> fixed(a, x, places).len()
            > 0 && digit(fixed(a, x, places)[0])
    &&& forall|t: Seq<char>|
        #![trigger double_text(a, seq!['-'] + t)]
        numeral(t) && digit(t[0]) ==> double_text(a, seq!['-'] + t) == double_text(a, t).negated()
}

/// A word more.
proof fn lemma_read_push<A: Arithmetic>(a: &A, ws: Seq<(char, Seq<char>)>, c: char, t: Seq<char>)
    ensures
        ({
            let more = read_words(a, ws.push((c, t)));
            let w = Word { letter: c as u8, value: double_text(a, t) };
            &&& forall|l: char|
                #![trigger last_number(more, l)]
                last_number(more, l) == if c as u8 == l as u8 {
                    Some(double_text(a, t))
                } else {
                    last_number(read_words(a, ws), l)
                }
            &&& forall|codes: Seq<int>, before: int|
                #![trigger code_in_force(a, more, codes, before)]
                code_in_force(a, more, codes, before) == if is_code(a, w, codes) {
                    wide_to_i32(a, double_text(a, t)) as int
                } else {
                    code_in_force(a, read_words(a, ws), codes, before)
                }
        }),
{
    let w = Word { letter: c as u8, value: double_text(a, t) };
    let all = ws.push((c, t));
    assert(read_words(a, all) == read_words(a, ws).push(w));
    assert(read_words(a, all).drop_last() == read_words(a, ws));
}

proof fn lemma_sound_push(ws: Seq<(char, Seq<char>)>, c: char, t: Seq<char>)
    requires
        sound_words(ws),
        'A' <= c <= 'Z',
        numeral(t),
    ensures
        sound_words(ws.push((c, t))),
{
    let all = ws.push((c, t));
    assert forall|k: int| 0 <= k < all.len() implies 'A' <= (#[trigger] all[k]).0 <= 'Z' && numeral(
        all[k].1,
    ) by {
        if k < ws.len() {
            assert(all[k] == ws[k]);
        }
    }
}

/// The codes that stand in these lines.
proof fn lemma_codes_read<A: Arithmetic>(a: &A, bound: real, fine: real)
    requires
        legible(a, bound, fine),
    ensures
        numeral(seq!['9', '0']),
        numeral(seq!['9', '1']),
        numeral(seq!['2', '1']),
        numeral(seq!['0']),
        numeral(seq!['1']),
        numeral(seq!['1', '0']),
        numeral(seq!['2', '0']),
        wide_to_i32(a, double_text(a, seq!['9', '0'])) == 90,
        wide_to_i32(a, double_text(a, seq!['9', '1'])) == 91,
        wide_to_i32(a, double_text(a, seq!['2', '1'])) == 21,
        wide_to_i32(a, double_text(a, seq!['0'])) == 0,
{
    reveal_with_fuel(natural_of, 3);
    assert(seq!['9', '0'].drop_last() == seq!['9']);
    assert(seq!['9', '1'].drop_last() == seq!['9']);
    assert(seq!['2', '1'].drop_last() == seq!['2']);
    assert(seq!['1', '0'].drop_last() == seq!['1']);
    assert(seq!['2', '0'].drop_last() == seq!['2']);
    assert(natural_of(seq!['9', '0']) == Some(90nat));
    assert(natural_of(seq!['9', '1']) == Some(91nat));
    assert(natural_of(seq!['2', '1']) == Some(21nat));
    assert(natural_of(seq!['1', '0']) == Some(10nat));
    assert(natural_of(seq!['2', '0']) == Some(20nat));
    assert(natural_of(seq!['0']) == Some(0nat));
    assert(natural_of(seq!['1']) == Some(1nat));
}

/// The other numbers that stand in these lines.
proof fn lemma_numerals()
    ensures
        numeral(seq!['3', '8', '.', '3']),
        numeral(seq!['1', '0', '0', '0']),
        numeral(seq!['5', '0', '0']),
{
    reveal_with_fuel(digits_end, 6);
}

/// Which codes are of one kind.
proof fn lemma_kinds<A: Arithmetic>(a: &A, w: Word)
    ensures
        is_code(a, w, seq![0, 1, 2, 3]) <==> w.letter == 71 && 0 <= wide_to_i32(
            a,
            w.value,
        ) <= 3,
        is_code(a, w, seq![90, 91]) <==> w.letter == 71 && 90 <= wide_to_i32(
            a,
            w.value,
        ) <= 91,
        is_code(a, w, seq![20, 21]) <==> w.letter == 71 && 20 <= wide_to_i32(
            a,
            w.value,
        ) <= 21,
{
    let n = wide_to_i32(a, w.value) as int;
    let moves = seq![0int, 1, 2, 3];
    let ways = seq![90int, 91];
    let units = seq![20int, 21];
    assert(moves[0] == 0 && moves[1] == 1 && moves[2] == 2 && moves[3] == 3);
    assert(ways[0] == 90 && ways[1] == 91);
    assert(units[0] == 20 && units[1] == 21);
    assert(0 <= n <= 3 ==> moves[n] == n);
}

/// A word more at the end of a line, with what it says.
proof fn lemma_word<A: Arithmetic>(a: &A, ws: Seq<(char, Seq<char>)>, c: char, t: Seq<char>) -> (all:
    Seq<(char, Seq<char>)>)
    requires
        ws.len() >= 1,
        sound_words(ws),
        'A' <= c <= 'Z',
        numeral(t),
    ensures
        all == ws.push((c, t)),
        sound_words(all),
        spell(all) == spell(ws) + seq![' '] + word(c, t),
{
    lemma_sound_push(ws, c, t);
    lemma_spell_push(ws, (c, t));
    ws.push((c, t))
}

/// The rapid move to the place of a probing goes in absolute millimetres to that place.
pub proof fn lemma_approach_says<A: Arithmetic>(
    a: &A,
    x: Scalar,
    y: Scalar,
    z: Scalar,
    before: int,
    bound: real,
    fine: real,
)
    requires
        legible(a, bound, fine),
        x.finite() && y.finite() && z.finite(),
        extent(worth(x)) <= bound && extent(worth(y)) <= bound && extent(worth(z)) <= bound,
    ensures
        ({
            let words = parsed_words(a, approach_line(a, x, y, z));
            let d = 1 as real / 2000 as real + fine;
            &&& code_in_force(a, words, seq![90, 91], before) == 90
            &&& code_in_force(a, words, seq![20, 21], before) == 21
            &&& code_in_force(a, words, seq![0, 1, 2, 3], before) == 0
            &&& says(words, 'X', worth(x), d)
            &&& says(words, 'Y', worth(y), d)
            &&& says(words, 'Z', worth(z), d)
        }),
{
    reveal_strlit("G90 G21 G0 X");
    reveal_strlit(" Y");
    reveal_strlit(" Z");
    reveal_with_fuel(last_place, 5);
    lemma_codes_read(a, bound, fine);
    let (tx, ty, tz) = (fixed(a, x, 3), fixed(a, y, 3), fixed(a, z, 3));
    let w3 = lemma_absolute_rapid(a, before, bound, fine);
    let w4 = lemma_word(a, w3, 'X', tx);
    let w5 = lemma_word(a, w4, 'Y', ty);
    let w6 = lemma_word(a, w5, 'Z', tz);
    lemma_read_push(a, w3, 'X', tx);
    lemma_read_push(a, w4, 'Y', ty);
    lemma_read_push(a, w5, 'Z', tz);
    let head = "G90 G21 G0 X"@;
    assert(spell(w4) == head + tx) by {
        assert(spell(w3) + seq![' '] + word('X', tx) == head + tx);
    }
    let s4 = head + tx;
    assert(spell(w5) == s4 + " Y"@ + ty) by {
        assert(s4 + seq![' '] + word('Y', ty) == s4 + " Y"@ + ty);
    }
    let s5 = s4 + " Y"@ + ty;
    assert(spell(w6) == s5 + " Z"@ + tz) by {
        assert(s5 + seq![' '] + word('Z', tz) == s5 + " Z"@ + tz);
    }
    assert(approach_line(a, x, y, z) == spell(w6));
    lemma_spelled_read(a, w6);
    lemma_kinds(a, Word { letter: 'X' as u8, value: double_text(a, tx) });
    lemma_kinds(a, Word { letter: 'Y' as u8, value: double_text(a, ty) });
    lemma_kinds(a, Word { letter: 'Z' as u8, value: double_text(a, tz) });
}

/// The words of a rapid move in absolute millimetres.
proof fn lemma_absolute_rapid<A: Arithmetic>(a: &A, before: int, bound: real, fine: real) -> (w3: Seq<
    (char, Seq<char>),
>)
    requires
        legible(a, bound, fine),
    ensures
        w3.len() == 3,
        sound_words(w3),
        spell(w3) == seq!['G', '9', '0', ' ', 'G', '2', '1', ' ', 'G', '0'],
        ({
            let words = read_words(a, w3);
            &&& code_in_force(a, words, seq![90, 91], before) == 90
            &&& code_in_force(a, words, seq![20, 21], before) == 21
            &&& code_in_force(a, words, seq![0, 1, 2, 3], before) == 0
            &&& forall|l: char| l as u8 != 71 ==> #[trigger] last_number(words, l) is None
        }),
{
    lemma_codes_read(a, bound, fine);
    let none = Seq::<(char, Seq<char>)>::empty();
    let w1 = none.push(('G', seq!['9', '0']));
    lemma_sound_push(none, 'G', seq!['9', '0']);
    let w2 = lemma_word(a, w1, 'G', seq!['2', '1']);
    let w3 = lemma_word(a, w2, 'G', seq!['0']);
    lemma_read_push(a, none, 'G', seq!['9', '0']);
    lemma_read_push(a, w1, 'G', seq!['2', '1']);
    lemma_read_push(a, w2, 'G', seq!['0']);
    lemma_kinds(a, Word { letter: 'G' as u8, value: double_text(a, seq!['9', '0']) });
    lemma_kinds(a, Word { letter: 'G' as u8, value: double_text(a, seq!['2', '1']) });
    lemma_kinds(a, Word { letter: 'G' as u8, value: double_text(a, seq!['0']) });
    assert(spell(w1) == seq!['G', '9', '0']);
    w3
}

/// The move to a height goes there in absolute millimetres, rapidly, and nowhere else.
pub proof fn lemma_retract_says<A: Arithmetic>(
    a: &A,
    z: Scalar,
    before: int,
    bound: real,
    fine: real,
)
    requires
        legible(a, bound, fine),
        z.finite() && extent(worth(z)) <= bound,
    ensures
        ({
            let words = parsed_words(a, retract_line(a, z));
            &&& code_in_force(a, words, seq![90, 91], before) == 90
            &&& code_in_force(a, words, seq![20, 21], before) == 21
            &&& code_in_force(a, words, seq![0, 1, 2, 3], before) == 0
            &&& last_number(words, 'X') is None
            &&& last_number(words, 'Y') is None
            &&& says(words, 'Z', worth(z), 1 as real / 2000 as real + fine)
        }),
{
    reveal_strlit("G90 G21 G0 Z");
    reveal_with_fuel(last_place, 5);
    let tz = fixed(a, z, 3);
    let w3 = lemma_absolute_rapid(a, before, bound, fine);
    let w4 = lemma_word(a, w3, 'Z', tz);
    lemma_read_push(a, w3, 'Z', tz);
    let head = "G90 G21 G0 Z"@;
    assert(spell(w3) + seq![' '] + word('Z', tz) == head + tz);
    lemma_spelled_read(a, w4);
    lemma_kinds(a, Word { letter: 'Z' as u8, value: double_text(a, tz) });
    assert(last_number(read_words(a, w4), 'X') is None);
    assert(last_number(read_words(a, w4), 'Y') is None);
}

/// The probing move goes down by the depth, and with the feed of the probing.
pub proof fn lemma_plunge_says<A: Arithmetic>(
    a: &A,
    depth: Scalar,
    feed: Scalar,
    bound: real,
    fine: real,
)
    requires
        legible(a, bound, fine),
        signs(a, bound),
        depth.finite() && feed.finite(),
        !depth.negative(),
        worth(depth) <= bound,
        extent(worth(depth)) <= bound && extent(worth(feed)) <= bound,
    ensures
        ({
            let words = parsed_words(a, plunge_line(a, depth, feed));
            &&& last_number(words, 'G') == Some(double_text(a, seq!['3', '8', '.', '3']))
            &&& last_number(words, 'X') is None
            &&& last_number(words, 'Y') is None
            &&& says(words, 'Z', -worth(depth), 1 as real / 2000 as real + fine)
            &&& says(words, 'F', worth(feed), 1 as real / 20 as real + fine)
        }),
{
    reveal_strlit("G38.3 Z-");
    reveal_strlit(" F");
    reveal_with_fuel(last_place, 5);
    lemma_numerals();
    let g = seq!['3', '8', '.', '3'];
    let t = fixed(a, depth, 3);
    let tz = seq!['-'] + t;
    let tf = fixed(a, feed, 1);
    lemma_numeral_negated(t);
    let none = Seq::<(char, Seq<char>)>::empty();
    let w1 = none.push(('G', g));
    lemma_sound_push(none, 'G', g);
    let w2 = lemma_word(a, w1, 'Z', tz);
    let w3 = lemma_word(a, w2, 'F', tf);
    lemma_read_push(a, none, 'G', g);
    lemma_read_push(a, w1, 'Z', tz);
    lemma_read_push(a, w2, 'F', tf);
    let head = "G38.3 Z-"@;
    assert(spell(w1) == seq!['G', '3', '8', '.', '3']);
    assert(spell(w2) == head + t) by {
        assert(spell(w1) + seq![' '] + word('Z', tz) == head + t);
    }
    let s2 = head + t;
    assert(s2 + seq![' '] + word('F', tf) == s2 + " F"@ + tf);
    lemma_spelled_read(a, w3);
    let words = read_words(a, w3);
    assert(last_number(words, 'X') is None);
    assert(last_number(words, 'Y') is None);
    assert(double_text(a, tz) == double_text(a, t).negated());
}

/// The axis of a jog, and whether it goes up along it.
pub open spec fn jog_letter(axis: JogAxis) -> (char, bool) {
    match axis {
        JogAxis::XPlus => ('X', true),
        JogAxis::XMinus => ('X', false),
        JogAxis::YPlus => ('Y', true),
        JogAxis::YMinus => ('Y', false),
        JogAxis::ZPlus => ('Z', true),
        JogAxis::ZMinus => ('Z', false),
    }
}

/// Behind the mark of a jog stands a relative move in millimetres along one axis, by the step in the
/// direction of the jog, and along no other.
pub proof fn lemma_jog_says<A: Arithmetic>(
    a: &A,
    axis: JogAxis,
    step: Scalar,
    places: u8,
    before: int,
    bound: real,
    fine: real,
)
    requires
        legible(a, bound, fine),
        signs(a, bound),
        step.finite() && !step.negative(),
        extent(worth(step)) <= bound,
        worth(step) <= bound,
        places <= 4,
    ensures
        ({
            let line = jog_line(a, axis, step, places);
            let words = parsed_words(a, line.skip(3));
            let (c, up) = jog_letter(axis);
            let way = if up {
                worth(step)
            } else {
                -worth(step)
            };
            &&& line.take(3) == seq!['$', 'J', '=']
            &&& code_in_force(a, words, seq![90, 91], before) == 91
            &&& code_in_force(a, words, seq![20, 21], before) == 21
            &&& says(words, c, way, last_place(places) / 2 as real + fine)
            &&& forall|l: char|
                (l == 'X' || l == 'Y' || l == 'Z') && l != c ==> #[trigger] last_number(words, l)
                    is None
            &&& last_number(words, 'F') is Some
        }),
{
    reveal_strlit("$J=G91 G21 ");
    reveal_strlit("X");
    reveal_strlit("X-");
    reveal_strlit("Y");
    reveal_strlit("Y-");
    reveal_strlit("Z");
    reveal_strlit("Z-");
    reveal_strlit(" F1000");
    reveal_strlit(" F500");
    lemma_codes_read(a, bound, fine);
    lemma_numerals();
    let (c, up) = jog_letter(axis);
    let digits = fixed(a, step, places);
    lemma_numeral_negated(digits);
    let t = if up {
        digits
    } else {
        seq!['-'] + digits
    };
    let f = if c == 'Z' {
        seq!['5', '0', '0']
    } else {
        seq!['1', '0', '0', '0']
    };
    let none = Seq::<(char, Seq<char>)>::empty();
    let w1 = none.push(('G', seq!['9', '1']));
    lemma_sound_push(none, 'G', seq!['9', '1']);
    let w2 = lemma_word(a, w1, 'G', seq!['2', '1']);
    let w3 = lemma_word(a, w2, c, t);
    let w4 = lemma_word(a, w3, 'F', f);
    lemma_read_push(a, none, 'G', seq!['9', '1']);
    lemma_read_push(a, w1, 'G', seq!['2', '1']);
    lemma_read_push(a, w2, c, t);
    lemma_read_push(a, w3, 'F', f);
    lemma_kinds(a, Word { letter: 'G' as u8, value: double_text(a, seq!['9', '1']) });
    lemma_kinds(a, Word { letter: 'G' as u8, value: double_text(a, seq!['2', '1']) });
    lemma_kinds(a, Word { letter: c as u8, value: double_text(a, t) });
    lemma_kinds(a, Word { letter: 'F' as u8, value: double_text(a, f) });
    assert(spell(w1) == seq!['G', '9', '1']);
    let s2 = seq!['G', '9', '1', ' ', 'G', '2', '1'];
    assert(spell(w2) == s2);
    let line = jog_line(a, axis, step, places);
    assert(line.skip(3) == spell(w4)) by {
        assert(axis.feed() == seq![' '] + word('F', f));
        assert(axis.name() + digits == word(c, t));
        let mark = seq!['$', 'J', '='];
        assert("$J=G91 G21 "@ == mark + s2 + seq![' ']);
        assert(line == mark + (s2 + seq![' '] + word(c, t) + (seq![' '] + word('F', f))));
        assert(spell(w4) == s2 + seq![' '] + word(c, t) + seq![' '] + word('F', f));
    }
    lemma_spelled_read(a, w4);
    let words = read_words(a, w4);
    assert forall|l: char| (l == 'X' || l == 'Y' || l == 'Z') && l != c implies #[trigger] last_number(
        words,
        l,
    ) is None by {
    }
    if !up {
        assert(double_text(a, t) == double_text(a, digits).negated());
    }
}

/// The command for a height tells the controller that the tool is at that height of the work.
pub proof fn lemma_height_says<A: Arithmetic>(a: &A, z: Scalar, bound: real, fine: real)
    requires
        legible(a, bound, fine),
        z.finite() && extent(worth(z)) <= bound,
    ensures
        ({
            let words = parsed_words(a, set_height_line(a, z));
            &&& says(words, 'Z', worth(z), 1 as real / 20000 as real + fine)
            &&& last_number(words, 'X') is None
            &&& last_number(words, 'Y') is None
            &&& last_number(words, 'G') == Some(double_text(a, seq!['1', '0']))
            &&& last_number(words, 'L') == Some(double_text(a, seq!['2', '0']))
            &&& last_number(words, 'P') == Some(double_text(a, seq!['1']))
        }),
{
    reveal_strlit("G10 L20 P1 Z");
    reveal_with_fuel(last_place, 5);
    lemma_codes_read(a, bound, fine);
    let tz = fixed(a, z, 4);
    let none = Seq::<(char, Seq<char>)>::empty();
    let w1 = none.push(('G', seq!['1', '0']));
    lemma_sound_push(none, 'G', seq!['1', '0']);
    let w2 = lemma_word(a, w1, 'L', seq!['2', '0']);
    let w3 = lemma_word(a, w2, 'P', seq!['1']);
    let w4 = lemma_word(a, w3, 'Z', tz);
    lemma_read_push(a, none, 'G', seq!['1', '0']);
    lemma_read_push(a, w1, 'L', seq!['2', '0']);
    lemma_read_push(a, w2, 'P', seq!['1']);
    lemma_read_push(a, w3, 'Z', tz);
    assert(spell(w1) == seq!['G', '1', '0']);
    let head = "G10 L20 P1 Z"@;
    assert(spell(w3) == seq!['G', '1', '0', ' ', 'L', '2', '0', ' ', 'P', '1']);
    assert(spell(w3) + seq![' '] + word('Z', tz) == head + tz);
    lemma_spelled_read(a, w4);
    let words = read_words(a, w4);
    assert(last_number(words, 'X') is None && last_number(words, 'Y') is None);
}

/// Before it travels to the origin of the work a tool that is too low goes up, and does nothing else:
/// no line before that move goes sideways, and the lines that travel follow it.
pub proof fn lemma_travel_above_work<A: Arithmetic>(
    a: &A,
    m: &MachineState,
    before: int,
    bound: real,
    fine: real,
)
    requires
        legible(a, bound, fine),
        extent(worth(Scalar { bits: RETRACT_Z })) <= bound,
        m.wpos.z.below(Scalar { bits: RETRACT_Z }),
    ensures
        ({
            let lines = action_lines(a, m, MachineAction::WorkHomeXy);
            let all = action_lines(a, m, MachineAction::WorkHomeXyz);
            let up = parsed_words(a, lines[0]);
            let travel = parsed_words(a, lines[1]);
            let down = parsed_words(a, all[2]);
            &&& lines.len() == 2 && all.len() == 3
            &&& all[0] == lines[0] && all[1] == lines[1]
            &&& last_number(up, 'X') is None && last_number(up, 'Y') is None
            &&& says(up, 'Z', worth(Scalar { bits: RETRACT_Z }), 1 as real / 2000 as real + fine)
            &&& code_in_force(a, up, seq![90, 91], before) == 90
            &&& code_in_force(a, travel, seq![90, 91], before) == 90
            &&& code_in_force(a, travel, seq![20, 21], before) == 21
            &&& last_number(travel, 'X') == Some(double_text(a, seq!['0']))
            &&& last_number(travel, 'Y') == Some(double_text(a, seq!['0']))
            &&& last_number(travel, 'Z') is None
            &&& last_number(down, 'X') is None && last_number(down, 'Y') is None
            &&& last_number(down, 'Z') == Some(double_text(a, seq!['0']))
        }),
{
    reveal_strlit("G90 G21 G0 X0 Y0");
    reveal_strlit("G90 G21 G0 Z0");
    let top = Scalar { bits: RETRACT_Z };
    assert(top.finite());
    lemma_retract_says(a, top, before, bound, fine);
    lemma_codes_read(a, bound, fine);
    let zero = seq!['0'];
    let w3 = lemma_absolute_rapid(a, before, bound, fine);
    let w4 = lemma_word(a, w3, 'X', zero);
    let w5 = lemma_word(a, w4, 'Y', zero);
    let v4 = lemma_word(a, w3, 'Z', zero);
    lemma_read_push(a, w3, 'X', zero);
    lemma_read_push(a, w4, 'Y', zero);
    lemma_read_push(a, w3, 'Z', zero);
    lemma_kinds(a, Word { letter: 'X' as u8, value: double_text(a, zero) });
    lemma_kinds(a, Word { letter: 'Y' as u8, value: double_text(a, zero) });
    lemma_kinds(a, Word { letter: 'Z' as u8, value: double_text(a, zero) });
    assert(spell(w5) == "G90 G21 G0 X0 Y0"@);
    assert(spell(v4) == "G90 G21 G0 Z0"@);
    lemma_spelled_read(a, w5);
    lemma_spelled_read(a, v4);
    assert(last_number(read_words(a, w5), 'X') == Some(double_text(a, zero)));
    assert(last_number(read_words(a, w5), 'Y') == Some(double_text(a, zero)));
    assert(last_number(read_words(a, w5), 'Z') is None);
    assert(last_number(read_words(a, v4), 'X') is None);
    assert(last_number(read_words(a, v4), 'Y') is None);
}

} // verus!
