//! Lines that are spelled out of words, and how they are read back.
use vstd::prelude::*;
use crate::arith::{double_text, Arithmetic};
use crate::gcode::words::{
    letter, parsed_words, stripped, uncommented, upper, words_from, words_of, Word,
};
use crate::text::{
    digit, digits_end, exponent_end, float_text, fraction_end, fraction_has_digit,
    lemma_digits_end, lemma_number_end, number_end_of, sign_end, space, trimmed, trimmed_end,
    trimmed_start,
};

verus! {

/// A number in digits, with an optional sign, point and exponent.
pub open spec fn numeral(t: Seq<char>) -> bool {
    fraction_has_digit(t, sign_end(t, 0)) && number_end_of(t, 0) == t.len()
}

/// A word as it is written: its letter and its number.
pub open spec fn word(c: char, t: Seq<char>) -> Seq<char> {
    seq![c] + t
}

/// Words with a space between each two of them.
pub open spec fn spell(ws: Seq<(char, Seq<char>)>) -> Seq<char>
    decreases ws.len(),
{
    if ws.len() == 0 {
        Seq::empty()
    } else if ws.len() == 1 {
        word(ws[0].0, ws[0].1)
    } else {
        word(ws[0].0, ws[0].1) + seq![' '] + spell(ws.drop_first())
    }
}

/// Capitals with numbers in digits.
pub open spec fn sound_words(ws: Seq<(char, Seq<char>)>) -> bool {
    forall|k: int| 0 <= k < ws.len() ==> 'A' <= (#[trigger] ws[k]).0 <= 'Z' && numeral(ws[k].1)
}

/// Where digits end does not depend on what stands around them.
proof fn lemma_digits_local(pre: Seq<char>, t: Seq<char>, rest: Seq<char>, i: int)
    requires
        0 <= i <= t.len(),
        rest.len() == 0 || !digit(rest[0]),
    ensures
        digits_end(pre + t + rest, pre.len() + i) == pre.len() + digits_end(t, i),
    decreases t.len() - i,
{
    let s = pre + t + rest;
    if i < t.len() {
        assert(s[pre.len() + i] == t[i]);
        if digit(t[i]) {
            lemma_digits_local(pre, t, rest, i + 1);
        }
    } else if rest.len() > 0 {
        assert(s[pre.len() + i] == rest[0]);
    }
}

/// Where a number ends does not depend on what stands around it.
proof fn lemma_number_local(pre: Seq<char>, t: Seq<char>, rest: Seq<char>)
    requires
        numeral(t),
        rest.len() == 0 || rest[0] == ' ',
    ensures
        number_end_of(pre + t + rest, pre.len() as int) == pre.len() + t.len(),
{
    let s = pre + t + rest;
    let n = pre.len() as int;
    assert(rest.len() == 0 || !digit(rest[0]));
    assert forall|i: int| 0 <= i < t.len() implies s[n + i] == #[trigger] t[i] by {
    }
    if rest.len() > 0 {
        assert(s[n + t.len()] == ' ');
    }
    let f = sign_end(t, 0);
    if t.len() == 0 {
        assert(digits_end(t, 0) == 0);
    }
    assert(t.len() > 0);
    assert(s[n] == t[0]);
    assert(sign_end(s, n) == n + f);
    lemma_digits_end(t, f);
    lemma_digits_local(pre, t, rest, f);
    let k = digits_end(t, f);
    if k < t.len() {
        assert(s[n + k] == t[k]);
        if t[k] == '.' {
            lemma_digits_end(t, k + 1);
            lemma_digits_local(pre, t, rest, k + 1);
        }
    }
    assert(fraction_end(s, n + f) == n + fraction_end(t, f));
    assert(fraction_has_digit(s, n + f));
    let e = fraction_end(t, f);
    if e < t.len() {
        assert(s[n + e] == t[e]);
        assert(exponent_end(t, e) == t.len());
        let d = sign_end(t, e + 1);
        if e + 1 < t.len() {
            assert(s[n + e + 1] == t[e + 1]);
        } else {
            assert(digits_end(t, d) == d);
        }
        assert(sign_end(s, n + e + 1) == n + d);
        lemma_digits_end(t, d);
        lemma_digits_local(pre, t, rest, d);
    }
}

/// A numeral holds neither a space nor what begins a comment.
proof fn lemma_numeral_plain(t: Seq<char>)
    requires
        numeral(t),
    ensures
        t.len() > 0,
        forall|k: int|
            0 <= k < t.len() ==> #[trigger] t[k] != '(' && t[k] != ';' && !space(t[k]),
{
    let f = sign_end(t, 0);
    if t.len() == 0 {
        assert(digits_end(t, 0) == 0);
    }
    lemma_digits_end(t, f);
    let whole = digits_end(t, f);
    if whole < t.len() {
        lemma_digits_end(t, whole + 1);
    }
    let fraction = fraction_end(t, f);
    if fraction < t.len() {
        lemma_digits_end(t, sign_end(t, fraction + 1));
    }
    assert forall|k: int| 0 <= k < t.len() implies #[trigger] t[k] != '(' && t[k] != ';' && !space(
        t[k],
    ) by {
        if k < f {
        } else if k < whole {
            assert(digit(t[k]));
        } else if k < fraction {
            assert(k == whole || digit(t[k]));
        } else {
            let exponent = sign_end(t, fraction + 1);
            assert(k >= exponent ==> digit(t[k]));
        }
    }
}

/// A line of words has no comment and no space at either end.
proof fn lemma_spell_plain(ws: Seq<(char, Seq<char>)>)
    requires
        ws.len() > 0,
        sound_words(ws),
    ensures
        ({
            let s = spell(ws);
            &&& s.len() > 0 && !space(s[0]) && !space(s.last())
            &&& forall|k: int| 0 <= k < s.len() ==> #[trigger] s[k] != '(' && s[k] != ';'
        }),
    decreases ws.len(),
{
    let s = spell(ws);
    let t = ws[0].1;
    assert('A' <= ws[0].0 <= 'Z');
    lemma_numeral_plain(t);
    let head = word(ws[0].0, t);
    assert forall|k: int| 0 <= k < head.len() implies #[trigger] head[k] != '(' && head[k] != ';'
        && !space(head[k]) by {
        if k > 0 {
            assert(head[k] == t[k - 1]);
        }
    }
    if ws.len() > 1 {
        let tail = ws.drop_first();
        assert forall|k: int| 0 <= k < tail.len() implies 'A' <= (#[trigger] tail[k]).0 <= 'Z'
            && numeral(tail[k].1) by {
            assert(tail[k] == ws[k + 1]);
        }
        lemma_spell_plain(tail);
        let r = spell(tail);
        assert(s == head + seq![' '] + r);
        assert(s.last() == r.last());
        assert(s[0] == head[0]);
        assert forall|k: int| 0 <= k < s.len() implies #[trigger] s[k] != '(' && s[k] != ';' by {
            if k < head.len() {
                assert(s[k] == head[k]);
            } else if k > head.len() {
                assert(s[k] == r[k - head.len() - 1]);
            }
        }
    } else {
        assert(s == head);
        assert(head.last() == head[head.len() - 1]);
    }
}

proof fn lemma_uncommented_plain(s: Seq<char>)
    requires
        forall|k: int| 0 <= k < s.len() ==> #[trigger] s[k] != '(' && s[k] != ';',
    ensures
        uncommented(s, 0) == s,
    decreases s.len(),
{
    if s.len() > 0 {
        lemma_uncommented_plain(s.drop_first());
        assert(seq![s[0]] + s.drop_first() == s);
    }
}

proof fn lemma_words_from_spelled(pre: Seq<char>, ws: Seq<(char, Seq<char>)>)
    requires
        sound_words(ws),
    ensures
        words_from(pre + spell(ws), pre.len() as int) == ws.map_values(
            |w: (char, Seq<char>)| (w.0 as u8, w.1),
        ),
    decreases ws.len(),
{
    let s = pre + spell(ws);
    let n = pre.len() as int;
    let out = ws.map_values(|w: (char, Seq<char>)| (w.0 as u8, w.1));
    if ws.len() == 0 {
        assert(s == pre);
        assert(out == Seq::<(u8, Seq<char>)>::empty());
    } else {
        let c = ws[0].0;
        let t = ws[0].1;
        let tail = ws.drop_first();
        assert('A' <= c <= 'Z' && numeral(t));
        assert forall|k: int| 0 <= k < tail.len() implies 'A' <= (#[trigger] tail[k]).0 <= 'Z'
            && numeral(tail[k].1) by {
            assert(tail[k] == ws[k + 1]);
        }
        let rest = if ws.len() == 1 {
            Seq::<char>::empty()
        } else {
            seq![' '] + spell(tail)
        };
        let before = pre.push(c);
        assert(s == before + t + rest);
        assert(s[n] == c);
        lemma_number_local(before, t, rest);
        let end = n + 1 + t.len();
        assert(number_end_of(s, n + 1) == end);
        assert(s.subrange(n + 1, end) == t);
        assert(float_text(t));
        assert(letter(s[n]));
        assert(upper(c as u8) == c as u8);
        lemma_number_end(s, n + 1);
        if ws.len() == 1 {
            assert(words_from(s, end) == Seq::<(u8, Seq<char>)>::empty());
            assert(out == seq![(c as u8, t)] + Seq::<(u8, Seq<char>)>::empty());
        } else {
            let next = before + t + seq![' '];
            assert(s == next + spell(tail));
            assert(s[end] == ' ');
            assert(words_from(s, end) == words_from(s, end + 1));
            assert(next.len() == end + 1);
            lemma_words_from_spelled(next, tail);
            assert(out == seq![(c as u8, t)] + tail.map_values(
                |w: (char, Seq<char>)| (w.0 as u8, w.1),
            ));
        }
    }
}

/// Reading a line that was spelled out of words gives these words.
pub proof fn lemma_spelled_read<A: Arithmetic>(a: &A, ws: Seq<(char, Seq<char>)>)
    requires
        ws.len() > 0,
        sound_words(ws),
    ensures
        stripped(spell(ws)) == spell(ws),
        parsed_words(a, spell(ws)) == ws.map_values(
            |w: (char, Seq<char>)| Word { letter: w.0 as u8, value: double_text(a, w.1) },
        ),
{
    let s = spell(ws);
    lemma_spell_plain(ws);
    lemma_uncommented_plain(s);
    assert(trimmed_start(s) == s);
    assert(trimmed_end(s) == s);
    assert(trimmed(s) == s);
    let none = Seq::<char>::empty();
    assert(none + s == s);
    lemma_words_from_spelled(none, ws);
    assert(words_of(s) == ws.map_values(|w: (char, Seq<char>)| (w.0 as u8, w.1)));
    assert(parsed_words(a, s) =~= ws.map_values(
        |w: (char, Seq<char>)| Word { letter: w.0 as u8, value: double_text(a, w.1) },
    ));
}

/// A word more at the end of a line.
pub proof fn lemma_spell_push(ws: Seq<(char, Seq<char>)>, w: (char, Seq<char>))
    requires
        ws.len() >= 1,
    ensures
        spell(ws.push(w)) == spell(ws) + seq![' '] + word(w.0, w.1),
    decreases ws.len(),
{
    let all = ws.push(w);
    let tail = ws.drop_first();
    assert(all.drop_first() == tail.push(w));
    if ws.len() == 1 {
        assert(tail.push(w) == seq![w]);
        assert(spell(seq![w]) == word(w.0, w.1));
    } else {
        lemma_spell_push(tail, w);
        let head = word(ws[0].0, ws[0].1);
        assert(head + seq![' '] + (spell(tail) + seq![' '] + word(w.0, w.1)) == head + seq![' ']
            + spell(tail) + seq![' '] + word(w.0, w.1));
    }
}

/// A sign before a number in digits makes another one.
pub proof fn lemma_numeral_negated(t: Seq<char>)
    requires
        numeral(t),
        digit(t[0]),
    ensures
        numeral(seq!['-'] + t),
{
    lemma_numeral_plain(t);
    let pre = seq!['-'];
    let none = Seq::<char>::empty();
    let s = pre + t;
    assert(pre + t + none == s);
    lemma_number_local(pre, t, none);
    assert(s[1] == t[0]);
    assert(sign_end(t, 0) == 0 && sign_end(s, 0) == 1 && sign_end(s, 1) == 1);
    lemma_digits_local(pre, t, none, 0);
    let k = digits_end(t, 0);
    lemma_digits_end(t, 0);
    assert(k > 0);
}

} // verus!
