//! Text as sequences of characters.
use vstd::prelude::*;
use vstd::slice::slice_subrange;

verus! {

/// `String::push` adds the character at the end of the string.
pub assume_specification[ String::push ](s: &mut String, c: char)
    ensures
        final(s)@ == old(s)@.push(c),
;

/// The characters of `s`, in order.
pub fn to_chars(s: &str) -> (out: Vec<char>)
    ensures
        out@ == s@,
{
    let mut out: Vec<char> = Vec::new();
    for c in iter: s.chars()
        invariant
            out@ == iter.seq().take(iter.index() as int),
            iter.seq() == s@,
    {
        out.push(c);
    }
    out
}

/// A copy of `chars`.
pub fn owned(chars: &[char]) -> (out: Vec<char>)
    ensures
        out@ == chars@,
{
    let mut out: Vec<char> = Vec::new();
    for i in 0..chars.len()
        invariant
            out@ == chars@.take(i as int),
    {
        out.push(chars[i]);
    }
    out
}

/// The string with the characters `chars`.
pub fn from_chars(chars: &[char]) -> (out: String)
    ensures
        out@ == chars@,
{
    let mut out = String::new();
    for i in 0..chars.len()
        invariant
            out@ == chars@.take(i as int),
    {
        out.push(chars[i]);
    }
    out
}

/// The characters with the Unicode property White_Space.
pub open spec fn space(c: char) -> bool {
    ||| '\u{9}' <= c <= '\u{d}'
    ||| c == ' '
    ||| c == '\u{85}'
    ||| c == '\u{a0}'
    ||| c == '\u{1680}'
    ||| '\u{2000}' <= c <= '\u{200a}'
    ||| c == '\u{2028}'
    ||| c == '\u{2029}'
    ||| c == '\u{202f}'
    ||| c == '\u{205f}'
    ||| c == '\u{3000}'
}

pub fn is_space(c: char) -> (yes: bool)
    ensures
        yes == space(c),
{
    ('\u{9}' <= c && c <= '\u{d}') || c == ' ' || c == '\u{85}' || c == '\u{a0}' || c
        == '\u{1680}' || ('\u{2000}' <= c && c <= '\u{200a}') || c == '\u{2028}' || c
        == '\u{2029}' || c == '\u{202f}' || c == '\u{205f}' || c == '\u{3000}'
}

/// `s` without its leading white space.
pub open spec fn trimmed_start(s: Seq<char>) -> Seq<char>
    decreases s.len(),
{
    if s.len() > 0 && space(s[0]) {
        trimmed_start(s.drop_first())
    } else {
        s
    }
}

/// `s` without its trailing white space.
pub open spec fn trimmed_end(s: Seq<char>) -> Seq<char>
    decreases s.len(),
{
    if s.len() > 0 && space(s.last()) {
        trimmed_end(s.drop_last())
    } else {
        s
    }
}

/// `s` without white space at either end.
pub open spec fn trimmed(s: Seq<char>) -> Seq<char> {
    trimmed_end(trimmed_start(s))
}

pub fn trim(s: &[char]) -> (out: &[char])
    ensures
        out@ == trimmed(s@),
{
    let mut from: usize = 0;
    assert(s@.skip(0) == s@);
    while from < s.len() && is_space(s[from])
        invariant
            from <= s.len(),
            trimmed_start(s@) == trimmed_start(s@.skip(from as int)),
        decreases s.len() - from,
    {
        assert(s@.skip(from as int).drop_first() == s@.skip(from + 1));
        from = from + 1;
    }
    let rest = slice_subrange(s, from, s.len());
    assert(rest@ == s@.skip(from as int));
    let mut to: usize = rest.len();
    assert(rest@.take(to as int) == rest@);
    while to > 0 && is_space(rest[to - 1])
        invariant
            to <= rest.len(),
            trimmed_end(rest@) == trimmed_end(rest@.take(to as int)),
        decreases to,
    {
        assert(rest@.take(to as int).drop_last() == rest@.take(to - 1));
        to = to - 1;
    }
    let out = slice_subrange(rest, 0, to);
    assert(out@ == rest@.take(to as int));
    out
}

/// Trimming leaves a text without white space at either end, and such a text alone.
pub proof fn lemma_trimmed(s: Seq<char>)
    ensures
        trimmed(s).len() <= s.len(),
        trimmed(s).len() > 0 ==> !space(trimmed(s)[0]) && !space(trimmed(s).last()),
        s.len() > 0 && !space(s[0]) && !space(s.last()) ==> trimmed(s) == s,
        s.len() == 0 ==> trimmed(s) == s,
{
    lemma_trimmed_start(s);
    lemma_trimmed_end(trimmed_start(s));
}

proof fn lemma_trimmed_start(s: Seq<char>)
    ensures
        trimmed_start(s).len() <= s.len(),
        trimmed_start(s).len() > 0 ==> !space(trimmed_start(s)[0]),
    decreases s.len(),
{
    if s.len() > 0 && space(s[0]) {
        lemma_trimmed_start(s.drop_first());
    }
}

proof fn lemma_trimmed_end(s: Seq<char>)
    ensures
        trimmed_end(s).len() <= s.len(),
        trimmed_end(s).len() > 0 ==> !space(trimmed_end(s).last()) && trimmed_end(s)[0] == s[0],
    decreases s.len(),
{
    if s.len() > 0 && space(s.last()) {
        lemma_trimmed_end(s.drop_last());
    }
}

/// A trimmed text is a piece of the text.
pub proof fn lemma_trimmed_piece(s: Seq<char>) -> (from: int)
    ensures
        0 <= from <= from + trimmed(s).len() <= s.len(),
        trimmed(s) == s.subrange(from, from + trimmed(s).len()),
{
    let from = lemma_trimmed_start_piece(s);
    lemma_trimmed_end_piece(trimmed_start(s));
    assert(trimmed(s) == s.subrange(from, from + trimmed(s).len()));
    from
}

proof fn lemma_trimmed_start_piece(s: Seq<char>) -> (from: int)
    ensures
        0 <= from <= s.len(),
        trimmed_start(s) == s.skip(from),
    decreases s.len(),
{
    if s.len() > 0 && space(s[0]) {
        let from = lemma_trimmed_start_piece(s.drop_first());
        assert(s.drop_first().skip(from) == s.skip(from + 1));
        from + 1
    } else {
        assert(s.skip(0) == s);
        0
    }
}

proof fn lemma_trimmed_end_piece(s: Seq<char>)
    ensures
        trimmed_end(s).len() <= s.len(),
        trimmed_end(s) == s.take(trimmed_end(s).len() as int),
    decreases s.len(),
{
    if s.len() > 0 && space(s.last()) {
        lemma_trimmed_end_piece(s.drop_last());
        assert(s.drop_last().take(trimmed_end(s).len() as int) == s.take(
            trimmed_end(s).len() as int,
        ));
    } else {
        assert(s.take(s.len() as int) == s);
    }
}

/// ASCII decimal digits.
pub open spec fn digit(c: char) -> bool {
    '0' <= c <= '9'
}

pub fn is_digit(c: char) -> (yes: bool)
    ensures
        yes == digit(c),
{
    '0' <= c && c <= '9'
}

/// The first position from `i` on that holds no digit.
pub open spec fn digits_end(s: Seq<char>, i: int) -> int
    decreases s.len() - i,
{
    if 0 <= i < s.len() && digit(s[i]) {
        digits_end(s, i + 1)
    } else {
        i
    }
}

pub fn skip_digits(s: &[char], i: usize) -> (end: usize)
    requires
        i <= s.len(),
    ensures
        end == digits_end(s@, i as int),
        i <= end <= s.len(),
{
    let mut end: usize = i;
    while end < s.len() && is_digit(s[end])
        invariant
            i <= end <= s.len(),
            digits_end(s@, i as int) == digits_end(s@, end as int),
        decreases s.len() - end,
    {
        end = end + 1;
    }
    end
}

pub proof fn lemma_digits_end(s: Seq<char>, i: int)
    requires
        0 <= i <= s.len(),
    ensures
        i <= digits_end(s, i) <= s.len(),
        forall|k: int| i <= k < digits_end(s, i) ==> digit(#[trigger] s[k]),
        digits_end(s, i) < s.len() ==> !digit(s[digits_end(s, i)]),
    decreases s.len() - i,
{
    if i < s.len() && digit(s[i]) {
        lemma_digits_end(s, i + 1);
    }
}

/// The decimal digit of `d`, for `d` below ten.
pub open spec fn digit_char(d: nat) -> char {
    (48 + d) as char
}

/// The decimal notation of `n`.
pub open spec fn decimal_of(n: nat) -> Seq<char>
    decreases n,
{
    if n < 10 {
        seq![digit_char(n)]
    } else {
        decimal_of(n / 10).push(digit_char(n % 10))
    }
}

pub fn decimal(n: u64) -> (out: String)
    ensures
        out@ == decimal_of(n as nat),
    decreases n,
{
    let mut out = if n < 10 {
        String::new()
    } else {
        decimal(n / 10)
    };
    out.push((48u8 + (n % 10) as u8) as char);
    out
}

/// The decimal notation of `n`, with a sign if it is negative.
pub open spec fn signed_of(n: int) -> Seq<char> {
    if n < 0 {
        seq!['-'] + decimal_of((-n) as nat)
    } else {
        decimal_of(n as nat)
    }
}

pub fn signed(n: i64) -> (out: String)
    ensures
        out@ == signed_of(n as int),
{
    if n < 0 {
        let digits = to_chars(decimal((-((n + 1) as i128) + 1) as u64).as_str());
        let mut out: Vec<char> = Vec::new();
        out.push('-');
        for i in 0..digits.len()
            invariant
                out@ == seq!['-'] + digits@.take(i as int),
        {
            out.push(digits[i]);
            assert(digits@.take(i + 1) == digits@.take(i as int).push(digits@[i as int]));
        }
        assert(digits@.take(digits.len() as int) == digits@);
        from_chars(out.as_slice())
    } else {
        decimal(n as u64)
    }
}

/// The value of the digits `s`: `None` for no digit at all or another character.
pub open spec fn natural_of(s: Seq<char>) -> Option<nat>
    decreases s.len(),
{
    if s.len() == 0 || !digit(s.last()) {
        None
    } else if s.len() == 1 {
        Some((s.last() as nat - 48) as nat)
    } else {
        match natural_of(s.drop_last()) {
            Some(n) => Some((10 * n + s.last() as nat - 48) as nat),
            None => None,
        }
    }
}

/// The digits `s` as a number that is at most `max`.
fn natural(s: &[char], max: u64) -> (n: Option<u64>)
    requires
        max <= u32::MAX,
    ensures
        n == match natural_of(s@) {
            Some(v) if v <= max => Some(v as u64),
            _ => None,
        },
{
    if s.len() == 0 {
        return None;
    }
    let mut n: u64 = 0;
    let mut over: bool = false;
    for i in 0..s.len()
        invariant
            max <= u32::MAX,
            n <= u32::MAX,
            i > 0 ==> natural_of(s@.take(i as int)) is Some,
            i > 0 && !over ==> natural_of(s@.take(i as int)) == Some(n as nat) && n <= max,
            over ==> i > 0 && natural_of(s@.take(i as int))->0 > max,
            i == 0 ==> n == 0 && !over,
    {
        assert(s@.take(i + 1).drop_last() == s@.take(i as int));
        assert(s@.take(i + 1).last() == s@[i as int]);
        if !is_digit(s[i]) {
            proof {
                lemma_natural_prefix(s@, i as int);
            }
            return None;
        }
        let d: u64 = s[i] as u64 - 48;
        if !over {
            n = 10 * n + d;
            if n > max {
                over = true;
                n = 0;
            }
        }
    }
    assert(s@.take(s.len() as int) == s@);
    if over {
        None
    } else {
        Some(n)
    }
}

proof fn lemma_natural_prefix(s: Seq<char>, i: int)
    requires
        0 <= i < s.len(),
        !digit(s[i]),
    ensures
        natural_of(s) is None,
    decreases s.len(),
{
    if i < s.len() - 1 {
        lemma_natural_prefix(s.drop_last(), i);
    }
}

/// `s` without a leading sign.
pub open spec fn unsigned_part(s: Seq<char>) -> Seq<char> {
    if s.len() > 0 && (s[0] == '+' || s[0] == '-') {
        s.skip(1)
    } else {
        s
    }
}

/// The integer that `s` denotes: an optional sign and at least one digit.
pub open spec fn integer_of(s: Seq<char>) -> Option<int> {
    match natural_of(unsigned_part(s)) {
        Some(n) => Some(if s[0] == '-' { -n } else { n as int }),
        None => None,
    }
}

/// `s` as an `i32`: `None` unless it denotes an integer in range.
pub fn parse_i32(s: &[char]) -> (n: Option<i32>)
    ensures
        n == match integer_of(s@) {
            Some(v) if i32::MIN <= v <= i32::MAX => Some(v as i32),
            _ => None,
        },
{
    if s.len() > 0 && s[0] == '-' {
        let rest = slice_subrange(s, 1, s.len());
        assert(rest@ == s@.skip(1));
        match natural(rest, 0x8000_0000) {
            Some(v) => Some((-(v as i64)) as i32),
            None => None,
        }
    } else if s.len() > 0 && s[0] == '+' {
        let rest = slice_subrange(s, 1, s.len());
        assert(rest@ == s@.skip(1));
        match natural(rest, 0x7fff_ffff) {
            Some(v) => Some(v as i32),
            None => None,
        }
    } else {
        match natural(s, 0x7fff_ffff) {
            Some(v) => Some(v as i32),
            None => None,
        }
    }
}

/// `s` as a `u32`: `None` unless it denotes an integer in range that is written without `-`.
pub fn parse_u32(s: &[char]) -> (n: Option<u32>)
    ensures
        n == match integer_of(s@) {
            Some(v) if s@[0] != '-' && v <= u32::MAX => Some(v as u32),
            _ => None,
        },
{
    if s.len() > 0 && s[0] == '-' {
        None
    } else if s.len() > 0 && s[0] == '+' {
        let rest = slice_subrange(s, 1, s.len());
        assert(rest@ == s@.skip(1));
        match natural(rest, 0xffff_ffff) {
            Some(v) => Some(v as u32),
            None => None,
        }
    } else {
        match natural(s, 0xffff_ffff) {
            Some(v) => Some(v as u32),
            None => None,
        }
    }
}

/// The position behind a sign at `i`, if there is one.
pub open spec fn sign_end(s: Seq<char>, i: int) -> int {
    if 0 <= i < s.len() && (s[i] == '+' || s[i] == '-') {
        i + 1
    } else {
        i
    }
}

/// The position behind the digits from `i` on, and behind a point and the digits that follow it.
pub open spec fn fraction_end(s: Seq<char>, i: int) -> int {
    let k = digits_end(s, i);
    if 0 <= k < s.len() && s[k] == '.' {
        digits_end(s, k + 1)
    } else {
        k
    }
}

/// Whether there is a digit between `i` and `fraction_end(s, i)`.
pub open spec fn fraction_has_digit(s: Seq<char>, i: int) -> bool {
    let k = digits_end(s, i);
    ||| k > i
    ||| 0 <= k < s.len() && s[k] == '.' && digits_end(s, k + 1) > k + 1
}

/// The position behind an exponent at `i`: `e` or `E`, an optional sign and at least one digit.
pub open spec fn exponent_end(s: Seq<char>, i: int) -> int {
    let d = sign_end(s, i + 1);
    if 0 <= i < s.len() && (s[i] == 'e' || s[i] == 'E') && digits_end(s, d) > d {
        digits_end(s, d)
    } else {
        i
    }
}

/// The position behind the longest piece from `i` on that can begin a number.
pub open spec fn number_end_of(s: Seq<char>, i: int) -> int {
    let f = sign_end(s, i);
    if fraction_has_digit(s, f) {
        exponent_end(s, fraction_end(s, f))
    } else {
        fraction_end(s, f)
    }
}

pub proof fn lemma_number_end(s: Seq<char>, i: int)
    requires
        0 <= i <= s.len(),
    ensures
        i <= number_end_of(s, i) <= s.len(),
{
    let digits = sign_end(s, i);
    lemma_digits_end(s, digits);
    let whole = digits_end(s, digits);
    if whole < s.len() {
        lemma_digits_end(s, whole + 1);
    }
    let fraction = fraction_end(s, digits);
    if fraction < s.len() {
        lemma_digits_end(s, sign_end(s, fraction + 1));
    }
}

fn skip_sign(s: &[char], i: usize) -> (end: usize)
    requires
        i <= s.len(),
    ensures
        end == sign_end(s@, i as int),
        i <= end <= s.len(),
{
    if i < s.len() && (s[i] == '+' || s[i] == '-') {
        i + 1
    } else {
        i
    }
}

/// The number text from `i` on: its end, and whether it has a digit before the exponent.
pub fn number_end(s: &[char], i: usize) -> (out: (usize, bool))
    requires
        i <= s.len(),
    ensures
        out.0 == number_end_of(s@, i as int),
        out.1 == fraction_has_digit(s@, sign_end(s@, i as int)),
        i <= out.0 <= s.len(),
{
    let from = skip_sign(s, i);
    let mut end = skip_digits(s, from);
    let mut saw: bool = end > from;
    if end < s.len() && s[end] == '.' {
        let point: usize = end;
        end = skip_digits(s, point + 1);
        saw = saw || end > point + 1;
    }
    if saw && end < s.len() && (s[end] == 'e' || s[end] == 'E') {
        let digits = skip_sign(s, end + 1);
        let exponent = skip_digits(s, digits);
        if exponent > digits {
            end = exponent;
        }
    }
    (end, saw)
}

/// `c` with an ASCII capital made small.
pub open spec fn small(c: char) -> char {
    if 'A' <= c <= 'Z' {
        (c as u32 + 32) as char
    } else {
        c
    }
}

pub open spec fn equal_ignoring_case(s: Seq<char>, t: Seq<char>) -> bool {
    s.len() == t.len() && forall|i: int| 0 <= i < s.len() ==> small(#[trigger] s[i]) == small(t[i])
}

/// The texts that denote a floating number: `inf`, `infinity` or `nan` in any case, or digits
/// with an optional point and an optional exponent; each with an optional sign.
pub open spec fn float_text(s: Seq<char>) -> bool {
    ||| fraction_has_digit(s, sign_end(s, 0)) && number_end_of(s, 0) == s.len()
    ||| equal_ignoring_case(unsigned_part(s), "inf"@)
    ||| equal_ignoring_case(unsigned_part(s), "infinity"@)
    ||| equal_ignoring_case(unsigned_part(s), "nan"@)
}

fn to_small(c: char) -> (out: char)
    ensures
        out == small(c),
{
    if 'A' <= c && c <= 'Z' {
        (c as u8 + 32) as char
    } else {
        c
    }
}

fn same_ignoring_case(s: &[char], t: &str) -> (yes: bool)
    ensures
        yes == equal_ignoring_case(s@, t@),
{
    let other = to_chars(t);
    if s.len() != other.len() {
        return false;
    }
    for i in 0..s.len()
        invariant
            s.len() == other.len(),
            other@ == t@,
            forall|k: int| 0 <= k < i ==> small(#[trigger] s@[k]) == small(other@[k]),
    {
        if to_small(s[i]) != to_small(other[i]) {
            return false;
        }
    }
    true
}

pub fn is_float_text(s: &[char]) -> (yes: bool)
    ensures
        yes == float_text(s@),
{
    let (end, saw) = number_end(s, 0);
    if saw && end == s.len() {
        return true;
    }
    let from = skip_sign(s, 0);
    let rest = slice_subrange(s, from, s.len());
    assert(rest@ == unsigned_part(s@));
    same_ignoring_case(rest, "inf") || same_ignoring_case(rest, "infinity")
        || same_ignoring_case(rest, "nan")
}

/// Whether `s` is the text `t`.
pub fn same_text(s: &[char], t: &str) -> (yes: bool)
    ensures
        yes == (s@ == t@),
{
    let other = to_chars(t);
    if s.len() != other.len() {
        return false;
    }
    for i in 0..s.len()
        invariant
            s.len() == other.len(),
            other@ == t@,
            s@.take(i as int) == t@.take(i as int),
    {
        if s[i] != other[i] {
            return false;
        }
        assert(s@.take(i + 1) == s@.take(i as int).push(s@[i as int]));
        assert(t@.take(i + 1) == t@.take(i as int).push(t@[i as int]));
    }
    assert(s@.take(s.len() as int) == s@);
    assert(t@.take(s.len() as int) == t@);
    true
}

/// `s` without the prefix `t`: `None` unless `s` begins with it.
pub open spec fn after_prefix(s: Seq<char>, t: Seq<char>) -> Option<Seq<char>> {
    if t.len() <= s.len() && s.take(t.len() as int) == t {
        Some(s.skip(t.len() as int))
    } else {
        None
    }
}

pub fn strip_prefix<'a>(s: &'a [char], t: &str) -> (rest: Option<&'a [char]>)
    ensures
        match rest {
            Some(r) => after_prefix(s@, t@) == Some(r@),
            None => after_prefix(s@, t@) is None,
        },
{
    let n = to_chars(t).len();
    if n > s.len() {
        return None;
    }
    let head = slice_subrange(s, 0, n);
    assert(head@ == s@.take(n as int));
    if !same_text(head, t) {
        return None;
    }
    let rest = slice_subrange(s, n, s.len());
    assert(rest@ == s@.skip(n as int));
    Some(rest)
}

/// The first position of `c` in `s` from `i` on, or the length of `s`.
pub open spec fn position(s: Seq<char>, c: char, i: int) -> int
    decreases s.len() - i,
{
    if 0 <= i < s.len() && s[i] != c {
        position(s, c, i + 1)
    } else {
        i
    }
}

pub fn find(s: &[char], c: char) -> (at: usize)
    ensures
        at == position(s@, c, 0),
        at <= s.len(),
        at < s.len() ==> s@[at as int] == c,
        forall|k: int| 0 <= k < at ==> s@[k] != c,
{
    let mut at: usize = 0;
    while at < s.len() && s[at] != c
        invariant
            at <= s.len(),
            position(s@, c, 0) == position(s@, c, at as int),
            forall|k: int| 0 <= k < at ==> s@[k] != c,
        decreases s.len() - at,
    {
        at = at + 1;
    }
    at
}

/// `s` before and behind the first `c`: `None` if there is none.
pub open spec fn cut_at(s: Seq<char>, c: char) -> Option<(Seq<char>, Seq<char>)> {
    let k = position(s, c, 0);
    if k < s.len() {
        Some((s.take(k), s.skip(k + 1)))
    } else {
        None
    }
}

pub fn split_once<'a>(s: &'a [char], c: char) -> (parts: Option<(&'a [char], &'a [char])>)
    ensures
        match parts {
            Some((x, y)) => cut_at(s@, c) == Some((x@, y@)),
            None => cut_at(s@, c) is None,
        },
{
    let k = find(s, c);
    if k >= s.len() {
        return None;
    }
    let x = slice_subrange(s, 0, k);
    let y = slice_subrange(s, k + 1, s.len());
    assert(x@ == s@.take(k as int));
    assert(y@ == s@.skip(k + 1));
    Some((x, y))
}

/// The views of a list of texts.
pub open spec fn views(v: Seq<Vec<char>>) -> Seq<Seq<char>> {
    v.map_values(|x: Vec<char>| x@)
}

/// The views of a list of strings.
pub open spec fn string_views(v: Seq<String>) -> Seq<Seq<char>> {
    v.map_values(|x: String| x@)
}

/// The pieces of `s` between the separators `c`: one more than there are separators.
pub open spec fn split_of(s: Seq<char>, c: char) -> Seq<Seq<char>>
    decreases s.len(),
{
    if s.len() == 0 {
        seq![Seq::empty()]
    } else {
        let front = split_of(s.drop_last(), c);
        if s.last() == c {
            front.push(Seq::empty())
        } else {
            front.drop_last().push(front.last().push(s.last()))
        }
    }
}

pub fn split(s: &[char], c: char) -> (out: Vec<Vec<char>>)
    ensures
        views(out@) == split_of(s@, c),
        out.len() >= 1,
{
    let mut done: Vec<Vec<char>> = Vec::new();
    let mut last: Vec<char> = Vec::new();
    for i in 0..s.len()
        invariant
            split_of(s@.take(i as int), c) == views(done@).push(last@),
    {
        assert(s@.take(i + 1).drop_last() == s@.take(i as int));
        if s[i] == c {
            done.push(last);
            last = Vec::new();
        } else {
            let ghost before = views(done@).push(last@);
            last.push(s[i]);
            assert(before.drop_last() == views(done@));
        }
    }
    assert(s@.take(s.len() as int) == s@);
    done.push(last);
    done
}

/// The maximal pieces of `s` without white space.
pub open spec fn tokens_of(s: Seq<char>) -> Seq<Seq<char>>
    decreases s.len(),
{
    if s.len() == 0 {
        Seq::empty()
    } else {
        let front = tokens_of(s.drop_last());
        if space(s.last()) {
            front
        } else if s.len() == 1 || space(s[s.len() - 2]) {
            front.push(seq![s.last()])
        } else {
            front.drop_last().push(front.last().push(s.last()))
        }
    }
}

pub fn tokens(s: &[char]) -> (out: Vec<Vec<char>>)
    ensures
        views(out@) == tokens_of(s@),
{
    let mut done: Vec<Vec<char>> = Vec::new();
    let mut last: Vec<char> = Vec::new();
    for i in 0..s.len()
        invariant
            tokens_of(s@.take(i as int)) == if last.len() > 0 {
                views(done@).push(last@)
            } else {
                views(done@)
            },
            last.len() > 0 <==> i > 0 && !space(s@[i - 1]),
    {
        assert(s@.take(i + 1).drop_last() == s@.take(i as int));
        assert(i > 0 ==> s@.take(i + 1)[i - 1] == s@[i - 1]);
        if is_space(s[i]) {
            if last.len() > 0 {
                done.push(last);
                last = Vec::new();
            }
        } else {
            let ghost before = views(done@).push(last@);
            last.push(s[i]);
            assert(before.drop_last() == views(done@));
            assert(last@.len() == 1 ==> last@ == seq![s@[i as int]]);
        }
    }
    assert(s@.take(s.len() as int) == s@);
    if last.len() > 0 {
        done.push(last);
    }
    done
}

} // verus!
