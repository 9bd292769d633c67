//! The words of a G-code line.
use vstd::prelude::*;
use vstd::slice::slice_subrange;
use crate::arith::{double_text, read_double, Arithmetic, Double};
use crate::text::{
    float_text, from_chars, is_float_text, lemma_number_end, lemma_trimmed, lemma_trimmed_piece,
    number_end, number_end_of, owned, to_chars, trim, trimmed,
};

verus! {

pub const LETTER_F: u8 = 70;

pub const LETTER_G: u8 = 71;

pub const LETTER_I: u8 = 73;

pub const LETTER_J: u8 = 74;

pub const LETTER_R: u8 = 82;

pub const LETTER_X: u8 = 88;

pub const LETTER_Y: u8 = 89;

pub const LETTER_Z: u8 = 90;

/// A letter, in upper case, and the number behind it.
#[derive(Clone, Copy, Debug, PartialEq)]
pub struct Word {
    pub letter: u8,
    pub value: Double,
}

/// The characters of `s` that are outside comments, where `depth` parentheses are open before it.
/// A `;` outside parentheses ends the line.
pub open spec fn uncommented(s: Seq<char>, depth: nat) -> Seq<char>
    decreases s.len(),
{
    if s.len() == 0 {
        Seq::empty()
    } else if s[0] == '(' {
        uncommented(s.drop_first(), depth + 1)
    } else if s[0] == ')' && depth > 0 {
        uncommented(s.drop_first(), (depth - 1) as nat)
    } else if depth > 0 {
        uncommented(s.drop_first(), depth)
    } else if s[0] == ';' {
        Seq::empty()
    } else {
        seq![s[0]] + uncommented(s.drop_first(), depth)
    }
}

/// `line` without its comments and without white space at either end.
pub open spec fn stripped(line: Seq<char>) -> Seq<char> {
    trimmed(uncommented(line, 0))
}

fn strip(line: &str) -> (out: Vec<char>)
    ensures
        out@ == stripped(line@),
{
    let s = to_chars(line);
    let mut out: Vec<char> = Vec::new();
    let mut depth: usize = 0;
    let mut i: usize = 0;
    assert(s@.skip(0) == s@);
    while i < s.len()
        invariant_except_break
            i <= s.len(),
            depth <= i,
            uncommented(s@, 0) == out@ + uncommented(s@.skip(i as int), depth as nat),
        ensures
            uncommented(s@, 0) == out@,
        decreases s.len() - i,
    {
        let c = s[i];
        assert(s@.skip(i as int)[0] == c);
        assert(s@.skip(i as int).drop_first() == s@.skip(i + 1));
        if c == '(' {
            depth = depth + 1;
        } else if c == ')' && depth > 0 {
            depth = depth - 1;
        } else if depth > 0 {
        } else if c == ';' {
            break;
        } else {
            out.push(c);
        }
        i = i + 1;
    }
    let kept = trim(out.as_slice());
    owned(kept)
}

/// `line` without comments and surrounding white space.
pub fn strip_comments(line: &str) -> (out: String)
    ensures
        out@ == stripped(line@),
{
    from_chars(strip(line).as_slice())
}

/// Stripping removes everything that it looks for: a second time changes nothing.
pub proof fn lemma_strip_idempotent(line: Seq<char>)
    ensures
        stripped(stripped(line)) == stripped(line),
{
    let kept = uncommented(line, 0);
    lemma_uncommented(line, 0);
    let from = lemma_trimmed_piece(kept);
    assert forall|k: int| 0 <= k < trimmed(kept).len() implies #[trigger] trimmed(kept)[k] != '('
        && trimmed(kept)[k] != ';' by {
        assert(trimmed(kept)[k] == kept[from + k]);
    }
    lemma_trimmed(kept);
    lemma_plain(trimmed(kept));
    lemma_trimmed(trimmed(kept));
}

/// Outside comments there is no opening parenthesis and no semicolon.
pub proof fn lemma_uncommented(s: Seq<char>, depth: nat)
    ensures
        forall|k: int|
            0 <= k < uncommented(s, depth).len() ==> #[trigger] uncommented(s, depth)[k] != '('
                && uncommented(s, depth)[k] != ';',
    decreases s.len(),
{
    if s.len() > 0 {

        lemma_uncommented(s.drop_first(), depth);
        lemma_uncommented(s.drop_first(), depth + 1);
        if depth > 0 {
            lemma_uncommented(s.drop_first(), (depth - 1) as nat);
        }
        let rest = uncommented(s.drop_first(), depth);
        let all = uncommented(s, depth);
        assert forall|k: int| 0 <= k < all.len() implies #[trigger] all[k] != '(' && all[k]
            != ';' by {
            if s[0] == '(' {
                assert(all[k] == uncommented(s.drop_first(), depth + 1)[k]);
            } else if depth > 0 && s[0] == ')' {
                assert(all[k] == uncommented(s.drop_first(), (depth - 1) as nat)[k]);
            } else if depth > 0 {
                assert(all[k] == rest[k]);
            } else {
                assert(all == seq![s[0]] + rest);
                assert(k > 0 ==> all[k] == rest[k - 1]);
            }
        }
    }
}

/// A text that starts no comment is kept as it is.
proof fn lemma_plain(s: Seq<char>)
    requires
        forall|k: int| 0 <= k < s.len() ==> #[trigger] s[k] != '(' && s[k] != ';',
    ensures
        uncommented(s, 0) == s,
    decreases s.len(),
{
    if s.len() > 0 {
        lemma_plain(s.drop_first());
        assert(seq![s[0]] + s.drop_first() == s);
    }
}

/// ASCII letters.
pub open spec fn letter(c: char) -> bool {
    'A' <= c <= 'Z' || 'a' <= c <= 'z'
}

/// The code of a letter's upper case form; any other code as it is.
pub open spec fn upper(b: u8) -> u8 {
    if 97 <= b <= 122 {
        (b - 32) as u8
    } else {
        b
    }
}

fn to_upper(b: u8) -> (u: u8)
    ensures
        u == upper(b),
{
    if 97 <= b && b <= 122 {
        b - 32
    } else {
        b
    }
}

/// The words of `s` from position `i` on: each letter with the longest number behind it. A letter
/// without a number makes no word.
pub open spec fn words_from(s: Seq<char>, i: int) -> Seq<(u8, Seq<char>)>
    decreases s.len() - i,
    when 0 <= i <= s.len()
    via words_from_decreases
{
    if i == s.len() {
        Seq::empty()
    } else if !letter(s[i]) {
        words_from(s, i + 1)
    } else {
        let end = number_end_of(s, i + 1);
        let number = s.subrange(i + 1, end);
        let rest = words_from(s, end);
        if float_text(number) {
            seq![(upper(s[i] as u8), number)] + rest
        } else {
            rest
        }
    }
}

#[via_fn]
proof fn words_from_decreases(s: Seq<char>, i: int) {
    if i < s.len() {
        lemma_number_end(s, i + 1);
    }
}

/// The words of a line: letters and the texts of their numbers.
pub open spec fn words_of(line: Seq<char>) -> Seq<(u8, Seq<char>)> {
    words_from(stripped(line), 0)
}

/// The words of a line with the values of their numbers.
pub open spec fn parsed_words<A: Arithmetic>(a: &A, line: Seq<char>) -> Seq<Word> {
    words_of(line).map_values(
        |w: (u8, Seq<char>)| Word { letter: w.0, value: double_text(a, w.1) },
    )
}

/// Letters with the texts of their numbers.
pub open spec fn word_texts(v: Seq<(u8, Vec<char>)>) -> Seq<(u8, Seq<char>)> {
    v.map_values(|w: (u8, Vec<char>)| (w.0, w.1@))
}

fn raw_words(line: &str) -> (out: Vec<(u8, Vec<char>)>)
    ensures
        word_texts(out@) == words_of(line@),
{
    let s = strip(line);
    let mut out: Vec<(u8, Vec<char>)> = Vec::new();
    let mut i: usize = 0;
    while i < s.len()
        invariant
            i <= s.len(),
            words_from(s@, 0) == word_texts(out@) + words_from(s@, i as int),
        decreases s.len() - i,
    {
        let c = s[i];
        if ('A' <= c && c <= 'Z') || ('a' <= c && c <= 'z') {
            proof {
                lemma_number_end(s@, i + 1);
            }
            let (end, _saw) = number_end(s.as_slice(), i + 1);
            let number = slice_subrange(s.as_slice(), i + 1, end);
            if is_float_text(number) {
                let ghost before = word_texts(out@);
                let word = (to_upper(c as u8), owned(number));
                out.push(word);
                assert(word_texts(out@) == before.push((word.0, word.1@)));
                assert(before + (seq![(word.0, word.1@)] + words_from(s@, end as int))
                    == before.push((word.0, word.1@)) + words_from(s@, end as int));
            }
            i = end;
        } else {
            i = i + 1;
        }
    }
    out
}

/// The words of `line`, in order.
pub fn parse_words<A: Arithmetic>(a: &A, line: &str) -> (out: Vec<Word>)
    requires
        a.lawful(),
    ensures
        out@ == parsed_words(a, line@),
{
    let raw = raw_words(line);
    let mut out: Vec<Word> = Vec::new();
    for i in 0..raw.len()
        invariant
            a.lawful(),
            word_texts(raw@) == words_of(line@),
            out@ == parsed_words(a, line@).take(i as int),
    {
        let word = &raw[i];
        assert(words_of(line@)[i as int] == (word.0, word.1@));
        out.push(Word { letter: word.0, value: read_double(a, word.1.as_slice()) });
        assert(parsed_words(a, line@).take(i + 1) == parsed_words(a, line@).take(i as int).push(
            parsed_words(a, line@)[i as int],
        ));
    }
    assert(words_of(line@).len() == raw.len());
    out
}

/// Whether `line` holds a word with the letter `letter`, in either case.
pub fn has_word(line: &str, letter: u8) -> (yes: bool)
    ensures
        yes == exists|k: int|
            0 <= k < words_of(line@).len() && (#[trigger] words_of(line@)[k]).0 == upper(letter),
{
    let wanted: u8 = to_upper(letter);
    let raw = raw_words(line);
    assert(words_of(line@).len() == raw.len());
    for i in 0..raw.len()
        invariant
            wanted == upper(letter),
            word_texts(raw@) == words_of(line@),
            forall|k: int| 0 <= k < i ==> (#[trigger] words_of(line@)[k]).0 != upper(letter),
    {
        assert(words_of(line@)[i as int] == (raw@[i as int].0, raw@[i as int].1@));
        if raw[i].0 == wanted {
            return true;
        }
    }
    false
}

/// A line has a word with a letter exactly if one of its parsed words has it.
pub proof fn lemma_parsed_letters<A: Arithmetic>(a: &A, line: Seq<char>, letter: u8)
    ensures
        (exists|k: int|
            0 <= k < words_of(line).len() && (#[trigger] words_of(line)[k]).0 == letter) <==> (
        exists|k: int|
            0 <= k < parsed_words(a, line).len() && (#[trigger] parsed_words(a, line)[k]).letter
                == letter),
{
    assert forall|k: int| 0 <= k < words_of(line).len() implies (#[trigger] words_of(line)[k]).0
        == parsed_words(a, line)[k].letter by {
    }
    assert forall|k: int| 0 <= k < parsed_words(a, line).len() implies (#[trigger] parsed_words(
        a,
        line,
    )[k]).letter == words_of(line)[k].0 by {
    }
}

/// The words of a line are those of the line without comments.
pub proof fn lemma_comments_hold_no_words(line: Seq<char>)
    ensures
        words_of(stripped(line)) == words_of(line),
{
    lemma_strip_idempotent(line);
}

/// Every word has an upper case letter and the text of a number.
pub proof fn lemma_words_well_formed(s: Seq<char>, i: int)
    requires
        0 <= i <= s.len(),
    ensures
        forall|k: int|
            0 <= k < words_from(s, i).len() ==> 65 <= (#[trigger] words_from(s, i)[k]).0 <= 90
                && float_text(words_from(s, i)[k].1),
    decreases s.len() - i,
{
    if i < s.len() {
        if letter(s[i]) {
            lemma_number_end(s, i + 1);
            let end = number_end_of(s, i + 1);
            lemma_words_well_formed(s, end);
            let rest = words_from(s, end);
            let all = words_from(s, i);
            assert forall|k: int| 0 <= k < all.len() implies 65 <= (#[trigger] all[k]).0 <= 90
                && float_text(all[k].1) by {
                if float_text(s.subrange(i + 1, end)) {
                    assert(all == seq![(upper(s[i] as u8), s.subrange(i + 1, end))] + rest);
                    assert(k > 0 ==> all[k] == rest[k - 1]);
                } else {
                    assert(all[k] == rest[k]);
                }
            }
        } else {
            lemma_words_well_formed(s, i + 1);
            assert(words_from(s, i) == words_from(s, i + 1));
        }
    }
}

} // verus!
