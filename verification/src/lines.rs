//! Texts made of lines, and lines made of tokens.
use vstd::prelude::*;
use crate::text::{
    decimal_of, digit, digit_char, digits_end, float_text, fraction_end,
    fraction_has_digit, integer_of, lemma_digits_end, natural_of, number_end_of, sign_end, space,
    split, split_of, tokens_of, unsigned_part, views,
};

verus! {

/// `l` without a carriage return at its end.
pub open spec fn without_return(l: Seq<char>) -> Seq<char> {
    if l.len() > 0 && l.last() == '\r' {
        l.drop_last()
    } else {
        l
    }
}

/// The lines of `s`: each ends with a line feed, which a carriage return may precede; the last
/// may have no end.
pub open spec fn lines_of(s: Seq<char>) -> Seq<Seq<char>> {
    let pieces = split_of(s, '\n');
    let ended = pieces.drop_last().map_values(|l: Seq<char>| without_return(l));
    if pieces.last().len() == 0 {
        ended
    } else {
        ended.push(pieces.last())
    }
}

pub fn lines(s: &[char]) -> (out: Vec<Vec<char>>)
    ensures
        views(out@) == lines_of(s@),
{
    let mut pieces = split(s, '\n');
    let ghost all = views(pieces@);
    let n: usize = pieces.len();
    let ghost ended = all.drop_last().map_values(|l: Seq<char>| without_return(l));
    for i in 0..n - 1
        invariant
            pieces.len() == n,
            ended.len() == n - 1,
            all.len() == n,
            forall|k: int| 0 <= k < n - 1 ==> #[trigger] ended[k] == without_return(all[k]),
            forall|k: int| 0 <= k < i ==> (#[trigger] pieces@[k])@ == ended[k],
            forall|k: int| i <= k < n ==> (#[trigger] pieces@[k])@ == all[k],
    {
        let m: usize = pieces[i].len();
        assert(pieces@[i as int]@ == all[i as int]);
        if m > 0 && pieces[i][m - 1] == '\r' {
            pieces[i].pop();
            assert(pieces@[i as int]@ == all[i as int].drop_last());
        }
    }
    if pieces[n - 1].len() == 0 {
        pieces.pop();
        assert(views(pieces@) == ended);
    } else {
        assert(views(pieces@) == ended.push(all.last()));
    }
    pieces
}

/// The text with these lines, each ended by a line feed.
pub open spec fn joined(lines: Seq<Seq<char>>) -> Seq<char>
    decreases lines.len(),
{
    if lines.len() == 0 {
        Seq::empty()
    } else {
        joined(lines.drop_last()) + lines.last().push('\n')
    }
}

/// The line with these tokens, a space between neighbours.
pub open spec fn spaced(tokens: Seq<Seq<char>>) -> Seq<char>
    decreases tokens.len(),
{
    if tokens.len() == 0 {
        Seq::empty()
    } else if tokens.len() == 1 {
        tokens[0]
    } else {
        spaced(tokens.drop_last()) + seq![' '] + tokens.last()
    }
}

/// Adds `t` at the end of `s`.
pub fn append(s: &mut Vec<char>, t: &[char])
    ensures
        final(s)@ == old(s)@ + t@,
{
    let ghost before = s@;
    for i in 0..t.len()
        invariant
            s@ == before + t@.take(i as int),
    {
        s.push(t[i]);
        assert(t@.take(i + 1) == t@.take(i as int).push(t@[i as int]));
    }
    assert(t@.take(t.len() as int) == t@);
}

/// Sets tokens side by side.
pub fn space_out(tokens: &Vec<Vec<char>>) -> (out: Vec<char>)
    ensures
        out@ == spaced(views(tokens@)),
{
    let ghost all = views(tokens@);
    let mut out: Vec<char> = Vec::new();
    assert(all.take(0) == Seq::<Seq<char>>::empty());
    for i in 0..tokens.len()
        invariant
            all == views(tokens@),
            out@ == spaced(all.take(i as int)),
    {
        assert(all.take(i + 1).drop_last() == all.take(i as int));
        if i > 0 {
            out.push(' ');
        }
        append(&mut out, tokens[i].as_slice());
        assert(out@ == spaced(all.take(i + 1)));
    }
    assert(all.take(tokens.len() as int) == all);
    out
}

/// Ends each line with a line feed and sets them one behind the other.
pub fn join_lines(lines: &Vec<Vec<char>>) -> (out: Vec<char>)
    ensures
        out@ == joined(views(lines@)),
{
    let ghost all = views(lines@);
    let mut out: Vec<char> = Vec::new();
    assert(all.take(0) == Seq::<Seq<char>>::empty());
    for i in 0..lines.len()
        invariant
            all == views(lines@),
            out@ == joined(all.take(i as int)),
    {
        assert(all.take(i + 1).drop_last() == all.take(i as int));
        append(&mut out, lines[i].as_slice());
        out.push('\n');
        assert(out@ == joined(all.take(i + 1)));
    }
    assert(all.take(lines.len() as int) == all);
    out
}

/// A text without line ends that does not end with a carriage return.
pub open spec fn one_line(l: Seq<char>) -> bool {
    &&& forall|k: int| 0 <= k < l.len() ==> #[trigger] l[k] != '\n'
    &&& l.len() > 0 ==> l.last() != '\r'
}

/// A text of at least one character and without white space.
pub open spec fn one_token(t: Seq<char>) -> bool {
    &&& t.len() > 0
    &&& forall|k: int| 0 <= k < t.len() ==> !space(#[trigger] t[k])
}

/// Splitting a text into lines undoes joining them.
pub proof fn lemma_lines_joined(lines: Seq<Seq<char>>)
    requires
        forall|k: int| 0 <= k < lines.len() ==> one_line(#[trigger] lines[k]),
    ensures
        lines_of(joined(lines)) == lines,
{
    lemma_split_joined(lines);
    let pieces = split_of(joined(lines), '\n');
    assert(pieces.drop_last() == lines);
    assert forall|k: int| 0 <= k < lines.len() implies without_return(#[trigger] lines[k])
        == lines[k] by {
        assert(one_line(lines[k]));
    }
    assert(lines.map_values(|l: Seq<char>| without_return(l)) == lines);
}

proof fn lemma_split_joined(lines: Seq<Seq<char>>)
    requires
        forall|k: int| 0 <= k < lines.len() ==> one_line(#[trigger] lines[k]),
    ensures
        split_of(joined(lines), '\n') == lines.push(Seq::empty()),
    decreases lines.len(),
{
    if lines.len() > 0 {
        let front = lines.drop_last();
        let last = lines.last();
        assert(one_line(lines[lines.len() - 1]));
        lemma_split_joined(front);
        let s = joined(front);
        lemma_split_append(s, last);
        assert(joined(lines) == (s + last).push('\n'));
        assert((s + last).push('\n').drop_last() == s + last);
        assert(front.push(Seq::empty()).drop_last() == front);
        assert(Seq::<char>::empty() + last == last);
        assert(front.push(last) == lines);
    } else {
        assert(split_of(joined(lines), '\n') == lines.push(Seq::empty()));
    }
}

/// A text without separators goes to the last piece.
proof fn lemma_split_append(s: Seq<char>, l: Seq<char>)
    requires
        forall|k: int| 0 <= k < l.len() ==> #[trigger] l[k] != '\n',
        split_of(s, '\n').len() >= 1,
    ensures
        split_of(s + l, '\n') == split_of(s, '\n').drop_last().push(split_of(s, '\n').last() + l),
    decreases l.len(),
{
    let pieces = split_of(s, '\n');
    if l.len() == 0 {
        assert(s + l == s);
        assert(pieces.last() + l == pieces.last());
        assert(pieces.drop_last().push(pieces.last()) == pieces);
    } else {
        let front = l.drop_last();
        lemma_split_append(s, front);
        assert((s + l).drop_last() == s + front);
        let before = split_of(s + front, '\n');
        assert(before.drop_last() == pieces.drop_last());
        assert(before.last().push(l.last()) == pieces.last() + l);
    }
}

/// Taking a line apart undoes setting its tokens side by side.
pub proof fn lemma_tokens_spaced(tokens: Seq<Seq<char>>)
    requires
        forall|k: int| 0 <= k < tokens.len() ==> one_token(#[trigger] tokens[k]),
    ensures
        tokens_of(spaced(tokens)) == tokens,
        forall|k: int| 0 <= k < spaced(tokens).len() ==> #[trigger] spaced(tokens)[k] == ' '
            || !space(spaced(tokens)[k]),
        tokens.len() > 0 ==> spaced(tokens).len() > 0 && !space(spaced(tokens).last()),
    decreases tokens.len(),
{
    if tokens.len() > 0 {
        let front = tokens.drop_last();
        let last = tokens.last();
        assert(one_token(tokens[tokens.len() - 1]));
        lemma_tokens_spaced(front);
        if tokens.len() == 1 {
            assert(tokens[0] == last);
            lemma_tokens_append(Seq::empty(), last);
            assert(Seq::<char>::empty() + last == last);
            assert(Seq::<Seq<char>>::empty().push(last) == tokens);
        } else {
            let s = spaced(front).push(' ');
            assert(s.drop_last() == spaced(front));
            lemma_tokens_append(s, last);
            assert(spaced(tokens) == s + last);
            assert(front.push(last) == tokens);
            assert forall|k: int| 0 <= k < spaced(tokens).len() implies #[trigger] spaced(
                tokens,
            )[k] == ' ' || !space(spaced(tokens)[k]) by {
                if k < spaced(front).len() {
                    assert(spaced(tokens)[k] == spaced(front)[k]);
                } else if k > spaced(front).len() {
                    assert(spaced(tokens)[k] == last[k - spaced(front).len() - 1]);
                }
            }
        }
    }
}

proof fn lemma_tokens_append(s: Seq<char>, t: Seq<char>)
    requires
        one_token(t),
        s.len() == 0 || space(s.last()),
    ensures
        tokens_of(s + t) == tokens_of(s).push(t),
    decreases t.len(),
{
    assert((s + t).drop_last() == s + t.drop_last());
    assert((s + t).last() == t.last());
    if t.len() == 1 {
        assert(s + t.drop_last() == s);
        assert(seq![t.last()] == t);
        assert(s.len() > 0 ==> (s + t)[s.len() - 1] == s.last());
    } else {
        assert forall|k: int| 0 <= k < t.drop_last().len() implies !space(
            #[trigger] t.drop_last()[k],
        ) by {
            assert(t[k] == t.drop_last()[k]);
        }
        lemma_tokens_append(s, t.drop_last());
        assert((s + t)[(s + t).len() - 2] == t[t.len() - 2]);
        let front = tokens_of(s).push(t.drop_last());
        assert(front.drop_last() == tokens_of(s));
        assert(t.drop_last().push(t.last()) == t);
    }
}

/// A text that denotes a number is one token.
pub proof fn lemma_float_text_token(s: Seq<char>)
    requires
        float_text(s),
    ensures
        one_token(s),
{
    reveal_strlit("inf");
    reveal_strlit("infinity");
    reveal_strlit("nan");
    if fraction_has_digit(s, sign_end(s, 0)) && number_end_of(s, 0) == s.len() {
        let f = sign_end(s, 0);
        if s.len() == 0 {
            assert(digits_end(s, 0) == 0);
        }
        lemma_digits_end(s, f);
        let whole = digits_end(s, f);
        if whole < s.len() {
            lemma_digits_end(s, whole + 1);
        }
        let fraction = fraction_end(s, f);
        if fraction < s.len() {
            lemma_digits_end(s, sign_end(s, fraction + 1));
        }
        assert forall|k: int| 0 <= k < s.len() implies !space(#[trigger] s[k]) by {
            if k < f {
            } else if k < whole {
                assert(digit(s[k]));
            } else if k < fraction {
                assert(k == whole || digit(s[k]));
            } else {
                let exponent = sign_end(s, fraction + 1);
                assert(k >= exponent ==> digit(s[k]));
            }
        }
    } else {
        let rest = unsigned_part(s);
        assert forall|k: int| 0 <= k < rest.len() implies !space(#[trigger] rest[k]) by {
        }
        assert(rest.len() > 0);
        assert forall|k: int| 0 <= k < s.len() implies !space(#[trigger] s[k]) by {
            if rest.len() == s.len() {
                assert(s[k] == rest[k]);
            } else {
                assert(k > 0 ==> s[k] == rest[k - 1]);
            }
        }
    }
}

/// No number has an empty text.
pub proof fn lemma_no_empty_number()
    ensures
        !float_text(Seq::empty()),
{
    let s = Seq::<char>::empty();
    if float_text(s) {
        lemma_float_text_token(s);
    }
}

/// Reading a number undoes writing it.
pub proof fn lemma_decimal_read(n: nat)
    ensures
        one_token(decimal_of(n)),
        natural_of(decimal_of(n)) == Some(n),
        forall|k: int| 0 <= k < decimal_of(n).len() ==> digit(#[trigger] decimal_of(n)[k]),
        integer_of(decimal_of(n)) == Some(n as int),
    decreases n,
{
    let s = decimal_of(n);
    if n >= 10 {
        lemma_decimal_read(n / 10);
        let front = decimal_of(n / 10);
        assert(s.drop_last() == front);
        assert forall|k: int| 0 <= k < s.len() implies digit(#[trigger] s[k]) by {
            assert(k < front.len() ==> s[k] == front[k]);
        }
    } else {
        assert(s == seq![digit_char(n)]);
    }
    assert(digit(s[0]));
}

} // verus!
