//! Numbers in floating notation, held by their bits, and the arithmetic on them.
//!
//! The order of two numbers, a sign change and the like are decided here, on the bits. Sums,
//! products, roots and the rest come from an [`Arithmetic`], which the caller supplies: every
//! function of the library that computes on numbers takes one, and its contract says which
//! operations are applied to which numbers.
use vstd::prelude::*;
use vstd::arithmetic::power2::{lemma_pow2_pos, lemma_pow2_unfold, pow2};
use crate::text::{digits_end, float_text, from_chars};

verus! {

/// The sign bit of a single.
pub const SIGN: u32 = 0x8000_0000;

/// The bits of the positive infinity as a single; those of a number are below.
pub const INFINITY: u32 = 0x7f80_0000;

/// The bits of the largest finite single.
pub const LARGEST: u32 = 0x7f7f_ffff;

/// The single 0.5.
pub const HALF: u32 = 0x3f00_0000;

/// The single 1.
pub const ONE: u32 = 0x3f80_0000;

/// The sign bit of a double.
pub const SIGN_WIDE: u64 = 0x8000_0000_0000_0000;

/// The bits of the positive infinity as a double.
pub const INFINITY_WIDE: u64 = 0x7ff0_0000_0000_0000;

/// A number in the IEEE 754 format binary32.
#[derive(Clone, Copy, Debug)]
pub struct Scalar {
    pub bits: u32,
}

/// A number in the IEEE 754 format binary64.
#[derive(Clone, Copy, Debug)]
pub struct Double {
    pub bits: u64,
}

/// The value of a finite single without its sign, counted in units of the least positive single.
pub open spec fn magnitude_units(m: int) -> int {
    let e = m / 0x80_0000;
    let f = m % 0x80_0000;
    if e == 0 {
        f
    } else {
        (0x80_0000 + f) * pow2((e - 1) as nat)
    }
}

/// How many units make one.
pub open spec fn unit_count() -> int {
    magnitude_units(ONE as int)
}

impl Scalar {
    /// The value of a finite single, counted in units of the least positive single.
    pub open spec fn units(self) -> int {
        if self.negative() {
            -magnitude_units(self.magnitude())
        } else {
            magnitude_units(self.magnitude())
        }
    }

    pub open spec fn negative(self) -> bool {
        self.bits >= SIGN
    }

    /// The bits without the sign.
    pub open spec fn magnitude(self) -> int {
        if self.negative() {
            self.bits - SIGN
        } else {
            self.bits as int
        }
    }

    pub open spec fn nan(self) -> bool {
        self.magnitude() > INFINITY
    }

    /// The place of a number among all numbers: the two zeros share one.
    pub open spec fn rank(self) -> int {
        if self.negative() {
            -self.magnitude()
        } else {
            self.magnitude()
        }
    }

    /// `self < y`.
    pub open spec fn below(self, y: Scalar) -> bool {
        !self.nan() && !y.nan() && self.rank() < y.rank()
    }

    /// `self <= y`.
    pub open spec fn at_most(self, y: Scalar) -> bool {
        !self.nan() && !y.nan() && self.rank() <= y.rank()
    }

    /// `self == y`: the zeros are equal, and what is no number equals nothing.
    pub open spec fn equals(self, y: Scalar) -> bool {
        !self.nan() && !y.nan() && self.rank() == y.rank()
    }

    pub open spec fn negated(self) -> Scalar {
        if self.negative() {
            Scalar { bits: (self.bits - SIGN) as u32 }
        } else {
            Scalar { bits: (self.bits + SIGN) as u32 }
        }
    }

    pub open spec fn absolute(self) -> Scalar {
        Scalar { bits: self.magnitude() as u32 }
    }

    /// The smaller of two numbers; the other one where one is no number.
    pub open spec fn lesser(self, y: Scalar) -> Scalar {
        if self.nan() || y.below(self) {
            y
        } else {
            self
        }
    }

    /// The larger of two numbers; the other one where one is no number.
    pub open spec fn greater(self, y: Scalar) -> Scalar {
        if self.nan() || self.below(y) {
            y
        } else {
            self
        }
    }

    /// `self` moved into the range from `lo` to `hi`.
    pub open spec fn clamped(self, lo: Scalar, hi: Scalar) -> Scalar {
        if self.below(lo) {
            lo
        } else if hi.below(self) {
            hi
        } else {
            self
        }
    }

    /// The place in the total order, which tells the zeros apart and holds the others as well.
    pub open spec fn total_rank(self) -> int {
        if self.negative() {
            -self.magnitude() - 1
        } else {
            self.magnitude()
        }
    }

    pub fn is_negative(self) -> (yes: bool)
        ensures
            yes == self.negative(),
    {
        self.bits >= SIGN
    }

    pub fn abs(self) -> (r: Scalar)
        ensures
            r == self.absolute(),
    {
        if self.bits >= SIGN {
            Scalar { bits: self.bits - SIGN }
        } else {
            self
        }
    }

    pub fn neg(self) -> (r: Scalar)
        ensures
            r == self.negated(),
    {
        if self.bits >= SIGN {
            Scalar { bits: self.bits - SIGN }
        } else {
            Scalar { bits: self.bits + SIGN }
        }
    }

    pub fn is_nan(self) -> (yes: bool)
        ensures
            yes == self.nan(),
    {
        self.abs().bits > INFINITY
    }

    /// Neither infinite nor without a value.
    pub open spec fn finite(self) -> bool {
        self.magnitude() < INFINITY
    }

    pub fn is_finite(self) -> (yes: bool)
        ensures
            yes == self.finite(),
    {
        self.abs().bits < INFINITY
    }

    /// The rank of the number.
    pub fn place(self) -> (r: i64)
        ensures
            r == self.rank(),
    {
        if self.bits >= SIGN {
            -((self.bits - SIGN) as i64)
        } else {
            self.bits as i64
        }
    }

    pub fn lt(self, y: Scalar) -> (yes: bool)
        ensures
            yes == self.below(y),
    {
        !self.is_nan() && !y.is_nan() && self.place() < y.place()
    }

    pub fn le(self, y: Scalar) -> (yes: bool)
        ensures
            yes == self.at_most(y),
    {
        !self.is_nan() && !y.is_nan() && self.place() <= y.place()
    }

    pub fn same(self, y: Scalar) -> (yes: bool)
        ensures
            yes == self.equals(y),
    {
        !self.is_nan() && !y.is_nan() && self.place() == y.place()
    }

    pub fn min(self, y: Scalar) -> (r: Scalar)
        ensures
            r == self.lesser(y),
    {
        if self.is_nan() || y.lt(self) {
            y
        } else {
            self
        }
    }

    pub fn max(self, y: Scalar) -> (r: Scalar)
        ensures
            r == self.greater(y),
    {
        if self.is_nan() || self.lt(y) {
            y
        } else {
            self
        }
    }

    pub fn clamp(self, lo: Scalar, hi: Scalar) -> (r: Scalar)
        requires
            lo.at_most(hi),
        ensures
            r == self.clamped(lo, hi),
    {
        if self.lt(lo) {
            lo
        } else if hi.lt(self) {
            hi
        } else {
            self
        }
    }
}

impl PartialEq for Scalar {
    fn eq(&self, other: &Scalar) -> (yes: bool) {
        self.same(*other)
    }
}

impl vstd::std_specs::cmp::PartialEqSpecImpl for Scalar {
    open spec fn obeys_eq_spec() -> bool {
        true
    }

    open spec fn eq_spec(&self, other: &Scalar) -> bool {
        self.equals(*other)
    }
}

impl Double {
    pub open spec fn negative(self) -> bool {
        self.bits >= SIGN_WIDE
    }

    /// The bits without the sign.
    pub open spec fn magnitude(self) -> int {
        if self.negative() {
            self.bits - SIGN_WIDE
        } else {
            self.bits as int
        }
    }

    pub open spec fn nan(self) -> bool {
        self.magnitude() > INFINITY_WIDE
    }

    /// The place of a number among all numbers: the two zeros share one.
    pub open spec fn rank(self) -> int {
        if self.negative() {
            -self.magnitude()
        } else {
            self.magnitude()
        }
    }

    /// `self < y`.
    pub open spec fn below(self, y: Double) -> bool {
        !self.nan() && !y.nan() && self.rank() < y.rank()
    }

    /// `self <= y`.
    pub open spec fn at_most(self, y: Double) -> bool {
        !self.nan() && !y.nan() && self.rank() <= y.rank()
    }

    /// `self == y`: the zeros are equal, and what is no number equals nothing.
    pub open spec fn equals(self, y: Double) -> bool {
        !self.nan() && !y.nan() && self.rank() == y.rank()
    }

    pub open spec fn negated(self) -> Double {
        if self.negative() {
            Double { bits: (self.bits - SIGN_WIDE) as u64 }
        } else {
            Double { bits: (self.bits + SIGN_WIDE) as u64 }
        }
    }

    pub open spec fn absolute(self) -> Double {
        Double { bits: self.magnitude() as u64 }
    }

    /// The larger of two numbers; the other one where one is no number.
    pub open spec fn greater(self, y: Double) -> Double {
        if self.nan() || self.below(y) {
            y
        } else {
            self
        }
    }

    pub fn abs(self) -> (r: Double)
        ensures
            r == self.absolute(),
    {
        if self.bits >= SIGN_WIDE {
            Double { bits: self.bits - SIGN_WIDE }
        } else {
            self
        }
    }

    pub fn neg(self) -> (r: Double)
        ensures
            r == self.negated(),
    {
        if self.bits >= SIGN_WIDE {
            Double { bits: self.bits - SIGN_WIDE }
        } else {
            Double { bits: self.bits + SIGN_WIDE }
        }
    }

    pub fn is_nan(self) -> (yes: bool)
        ensures
            yes == self.nan(),
    {
        self.abs().bits > INFINITY_WIDE
    }

    /// The rank of the number.
    pub fn place(self) -> (r: i128)
        ensures
            r == self.rank(),
    {
        if self.bits >= SIGN_WIDE {
            -((self.bits - SIGN_WIDE) as i128)
        } else {
            self.bits as i128
        }
    }

    pub fn lt(self, y: Double) -> (yes: bool)
        ensures
            yes == self.below(y),
    {
        !self.is_nan() && !y.is_nan() && self.place() < y.place()
    }

    pub fn le(self, y: Double) -> (yes: bool)
        ensures
            yes == self.at_most(y),
    {
        !self.is_nan() && !y.is_nan() && self.place() <= y.place()
    }

    pub fn same(self, y: Double) -> (yes: bool)
        ensures
            yes == self.equals(y),
    {
        !self.is_nan() && !y.is_nan() && self.place() == y.place()
    }

    pub fn max(self, y: Double) -> (r: Double)
        ensures
            r == self.greater(y),
    {
        if self.is_nan() || self.lt(y) {
            y
        } else {
            self
        }
    }
}

impl PartialEq for Double {
    fn eq(&self, other: &Double) -> (yes: bool) {
        self.same(*other)
    }
}

impl vstd::std_specs::cmp::PartialEqSpecImpl for Double {
    open spec fn obeys_eq_spec() -> bool {
        true
    }

    open spec fn eq_spec(&self, other: &Double) -> bool {
        self.equals(*other)
    }
}

/// The operations of an [`Arithmetic`]. Each is asked for in one of the two formats, and takes and
/// gives the bits of numbers in that format; those of one operand leave the second one out.
#[derive(Clone, Copy, Debug, PartialEq, Eq, Structural)]
pub enum Op {
    Add,
    Sub,
    Mul,
    Div,
    Sqrt,
    /// The second power.
    Square,
    Floor,
    Ceil,
    /// The nearest integer, halves away from zero.
    Round,
    /// The integer part.
    Trunc,
    Cos,
    Sin,
    /// The angle of the point whose ordinate comes first and whose abscissa comes second.
    Atan2,
    /// The nearest number in the other format; the operand is in the format asked for.
    Convert,
    /// The number of an `i64`, given by its bits.
    FromSigned,
    /// The number of a `u64`.
    FromUnsigned,
    /// The bits of the `i64` nearest to the integer part; zero for what is no number.
    ToSigned,
    /// The `u64` nearest to the integer part; zero for what is no number.
    ToUnsigned,
}

/// How a number is written.
#[derive(Clone, Copy, Debug, PartialEq, Eq, Structural)]
pub enum Style {
    /// A single with this many digits behind the point.
    Fixed(u8),
    /// A double with as many digits as tell it from every other double.
    Plain,
}

/// An arithmetic on the two formats.
pub trait Arithmetic: Sized {
    /// Whether the results depend on the operands alone, and numbers are written as texts that
    /// denote numbers.
    spec fn lawful(&self) -> bool;

    /// The result of `op` on `x` and `y`, in the format binary64 if `wide`.
    spec fn value(&self, op: Op, wide: bool, x: u64, y: u64) -> u64;

    /// The bits of the number that is nearest to what `text` denotes.
    spec fn reading(&self, wide: bool, text: Seq<char>) -> u64;

    /// The notation of a number.
    spec fn notation(&self, style: Style, bits: u64) -> Seq<char>;

    proof fn notation_is_number(&self, style: Style, bits: u64)
        requires
            self.lawful(),
        ensures
            float_text(self.notation(style, bits)),
    ;

    fn eval(&self, op: Op, wide: bool, x: u64, y: u64) -> (r: u64)
        requires
            self.lawful(),
        ensures
            r == self.value(op, wide, x, y),
    ;

    fn read(&self, wide: bool, text: &str) -> (r: u64)
        requires
            self.lawful(),
        ensures
            r == self.reading(wide, text@),
    ;

    fn show(&self, style: Style, bits: u64) -> (r: String)
        requires
            self.lawful(),
        ensures
            r@ == self.notation(style, bits),
    ;
}

/// The arithmetic of three functions.
pub struct Calculator<C, R, S> {
    /// The result of an operation.
    pub calc: C,
    /// The number of a text.
    pub reader: R,
    /// The text of a number.
    pub writer: S,
}

/// Whether the functions take everything, give equal results for equal arguments, and write
/// numbers as texts that denote numbers.
pub open spec fn regular<C, R, S>(calc: C, reader: R, writer: S) -> bool where
    C: Fn(Op, bool, u64, u64) -> u64,
    R: Fn(bool, &str) -> u64,
    S: Fn(Style, u64) -> String,
 {
    &&& forall|op: Op, w: bool, x: u64, y: u64| call_requires(calc, (op, w, x, y))
    &&& forall|op: Op, w: bool, x: u64, y: u64, r: u64, s: u64|
        call_ensures(calc, (op, w, x, y), r) && call_ensures(calc, (op, w, x, y), s)
            ==> r == s
    &&& forall|w: bool, t: &str| call_requires(reader, (w, t))
    &&& forall|w: bool, t: &str, u: &str, r: u64, s: u64|
        t@ == u@ && call_ensures(reader, (w, t), r) && call_ensures(
            reader,
            (w, u),
            s,
        ) ==> r == s
    &&& forall|k: Style, b: u64| call_requires(writer, (k, b))
    &&& forall|k: Style, b: u64, r: String, s: String|
        call_ensures(writer, (k, b), r) && call_ensures(writer, (k, b), s) ==> r@
            == s@
    &&& forall|k: Style, b: u64, r: String|
        #[trigger] call_ensures(writer, (k, b), r) ==> float_text(r@)
}

impl<C, R, S> Calculator<C, R, S> where
    C: Fn(Op, bool, u64, u64) -> u64,
    R: Fn(bool, &str) -> u64,
    S: Fn(Style, u64) -> String,
 {
    pub fn new(calc: C, reader: R, writer: S) -> (a: Calculator<C, R, S>)
        requires
            regular(calc, reader, writer),
        ensures
            a == (Calculator { calc, reader, writer }),
            a.lawful(),
    {
        Calculator { calc, reader, writer }
    }

    /// The number that the reader finds in a text.
    pub open spec fn reads(&self, wide: bool, text: Seq<char>, r: u64) -> bool {
        exists|t: &str| t@ == text && #[trigger] call_ensures(self.reader, (wide, t), r)
    }

    /// The text that the writer gives a number.
    pub open spec fn writes(&self, style: Style, bits: u64, s: Seq<char>) -> bool {
        exists|r: String| r@ == s && #[trigger] call_ensures(self.writer, (style, bits), r)
    }
}

impl<C, R, S> Arithmetic for Calculator<C, R, S> where
    C: Fn(Op, bool, u64, u64) -> u64,
    R: Fn(bool, &str) -> u64,
    S: Fn(Style, u64) -> String,
 {
    open spec fn lawful(&self) -> bool {
        regular(self.calc, self.reader, self.writer)
    }

    open spec fn value(&self, op: Op, wide: bool, x: u64, y: u64) -> u64 {
        choose|r: u64| call_ensures(self.calc, (op, wide, x, y), r)
    }

    open spec fn reading(&self, wide: bool, text: Seq<char>) -> u64 {
        choose|r: u64| self.reads(wide, text, r)
    }

    open spec fn notation(&self, style: Style, bits: u64) -> Seq<char> {
        if exists|s: Seq<char>| self.writes(style, bits, s) {
            choose|s: Seq<char>| self.writes(style, bits, s)
        } else {
            seq!['0']
        }
    }

    proof fn notation_is_number(&self, style: Style, bits: u64) {
        if exists|s: Seq<char>| self.writes(style, bits, s) {
            let s = self.notation(style, bits);
            assert(self.writes(style, bits, s));
        } else {
            reveal_with_fuel(digits_end, 3);
        }
    }

    fn eval(&self, op: Op, wide: bool, x: u64, y: u64) -> (r: u64) {
        (self.calc)(op, wide, x, y)
    }

    fn read(&self, wide: bool, text: &str) -> (r: u64) {
        let r: u64 = (self.reader)(wide, text);
        assert(self.reads(wide, text@, r));
        r
    }

    fn show(&self, style: Style, bits: u64) -> (r: String) {
        let r = (self.writer)(style, bits);
        assert(self.writes(style, bits, r@));
        r
    }
}

/// `op` on two singles.
pub open spec fn spec_single2<A: Arithmetic>(a: &A, op: Op, x: Scalar, y: Scalar) -> Scalar {
    Scalar { bits: a.value(op, false, x.bits as u64, y.bits as u64) as u32 }
}

/// `op` on two singles.
#[verifier::when_used_as_spec(spec_single2)]
pub fn single2<A: Arithmetic>(a: &A, op: Op, x: Scalar, y: Scalar) -> (r: Scalar)
    requires
        a.lawful(),
    ensures
        r == spec_single2(a, op, x, y),
{
    Scalar { bits: a.eval(op, false, x.bits as u64, y.bits as u64) as u32 }
}

/// `op` on one single.
pub open spec fn spec_single1<A: Arithmetic>(a: &A, op: Op, x: Scalar) -> Scalar {
    Scalar { bits: a.value(op, false, x.bits as u64, 0) as u32 }
}

/// `op` on one single.
#[verifier::when_used_as_spec(spec_single1)]
pub fn single1<A: Arithmetic>(a: &A, op: Op, x: Scalar) -> (r: Scalar)
    requires
        a.lawful(),
    ensures
        r == spec_single1(a, op, x),
{
    Scalar { bits: a.eval(op, false, x.bits as u64, 0) as u32 }
}

/// The sum of two singles.
pub open spec fn spec_plus<A: Arithmetic>(a: &A, x: Scalar, y: Scalar) -> Scalar {
    single2(a, Op::Add, x, y)
}

/// The sum of two singles.
#[verifier::when_used_as_spec(spec_plus)]
pub fn plus<A: Arithmetic>(a: &A, x: Scalar, y: Scalar) -> (r: Scalar)
    requires
        a.lawful(),
    ensures
        r == spec_plus(a, x, y),
{
    single2(a, Op::Add, x, y)
}

/// The difference of two singles.
pub open spec fn spec_minus<A: Arithmetic>(a: &A, x: Scalar, y: Scalar) -> Scalar {
    single2(a, Op::Sub, x, y)
}

/// The difference of two singles.
#[verifier::when_used_as_spec(spec_minus)]
pub fn minus<A: Arithmetic>(a: &A, x: Scalar, y: Scalar) -> (r: Scalar)
    requires
        a.lawful(),
    ensures
        r == spec_minus(a, x, y),
{
    single2(a, Op::Sub, x, y)
}

/// The product of two singles.
pub open spec fn spec_times<A: Arithmetic>(a: &A, x: Scalar, y: Scalar) -> Scalar {
    single2(a, Op::Mul, x, y)
}

/// The product of two singles.
#[verifier::when_used_as_spec(spec_times)]
pub fn times<A: Arithmetic>(a: &A, x: Scalar, y: Scalar) -> (r: Scalar)
    requires
        a.lawful(),
    ensures
        r == spec_times(a, x, y),
{
    single2(a, Op::Mul, x, y)
}

/// The quotient of two singles.
pub open spec fn spec_over<A: Arithmetic>(a: &A, x: Scalar, y: Scalar) -> Scalar {
    single2(a, Op::Div, x, y)
}

/// The quotient of two singles.
#[verifier::when_used_as_spec(spec_over)]
pub fn over<A: Arithmetic>(a: &A, x: Scalar, y: Scalar) -> (r: Scalar)
    requires
        a.lawful(),
    ensures
        r == spec_over(a, x, y),
{
    single2(a, Op::Div, x, y)
}

/// `op` on two doubles.
pub open spec fn spec_double2<A: Arithmetic>(a: &A, op: Op, x: Double, y: Double) -> Double {
    Double { bits: a.value(op, true, x.bits, y.bits) }
}

/// `op` on two doubles.
#[verifier::when_used_as_spec(spec_double2)]
pub fn double2<A: Arithmetic>(a: &A, op: Op, x: Double, y: Double) -> (r: Double)
    requires
        a.lawful(),
    ensures
        r == spec_double2(a, op, x, y),
{
    Double { bits: a.eval(op, true, x.bits, y.bits) }
}

/// `op` on one double.
pub open spec fn spec_double1<A: Arithmetic>(a: &A, op: Op, x: Double) -> Double {
    Double { bits: a.value(op, true, x.bits, 0) }
}

/// `op` on one double.
#[verifier::when_used_as_spec(spec_double1)]
pub fn double1<A: Arithmetic>(a: &A, op: Op, x: Double) -> (r: Double)
    requires
        a.lawful(),
    ensures
        r == spec_double1(a, op, x),
{
    Double { bits: a.eval(op, true, x.bits, 0) }
}

/// The sum of two doubles.
pub open spec fn spec_wide_plus<A: Arithmetic>(a: &A, x: Double, y: Double) -> Double {
    double2(a, Op::Add, x, y)
}

/// The sum of two doubles.
#[verifier::when_used_as_spec(spec_wide_plus)]
pub fn wide_plus<A: Arithmetic>(a: &A, x: Double, y: Double) -> (r: Double)
    requires
        a.lawful(),
    ensures
        r == spec_wide_plus(a, x, y),
{
    double2(a, Op::Add, x, y)
}

/// The difference of two doubles.
pub open spec fn spec_wide_minus<A: Arithmetic>(a: &A, x: Double, y: Double) -> Double {
    double2(a, Op::Sub, x, y)
}

/// The difference of two doubles.
#[verifier::when_used_as_spec(spec_wide_minus)]
pub fn wide_minus<A: Arithmetic>(a: &A, x: Double, y: Double) -> (r: Double)
    requires
        a.lawful(),
    ensures
        r == spec_wide_minus(a, x, y),
{
    double2(a, Op::Sub, x, y)
}

/// The product of two doubles.
pub open spec fn spec_wide_times<A: Arithmetic>(a: &A, x: Double, y: Double) -> Double {
    double2(a, Op::Mul, x, y)
}

/// The product of two doubles.
#[verifier::when_used_as_spec(spec_wide_times)]
pub fn wide_times<A: Arithmetic>(a: &A, x: Double, y: Double) -> (r: Double)
    requires
        a.lawful(),
    ensures
        r == spec_wide_times(a, x, y),
{
    double2(a, Op::Mul, x, y)
}

/// The quotient of two doubles.
pub open spec fn spec_wide_over<A: Arithmetic>(a: &A, x: Double, y: Double) -> Double {
    double2(a, Op::Div, x, y)
}

/// The quotient of two doubles.
#[verifier::when_used_as_spec(spec_wide_over)]
pub fn wide_over<A: Arithmetic>(a: &A, x: Double, y: Double) -> (r: Double)
    requires
        a.lawful(),
    ensures
        r == spec_wide_over(a, x, y),
{
    double2(a, Op::Div, x, y)
}

/// `x` as a double.
pub open spec fn spec_widen<A: Arithmetic>(a: &A, x: Scalar) -> Double {
    Double { bits: a.value(Op::Convert, false, x.bits as u64, 0) }
}

/// `x` as a double.
#[verifier::when_used_as_spec(spec_widen)]
pub fn widen<A: Arithmetic>(a: &A, x: Scalar) -> (r: Double)
    requires
        a.lawful(),
    ensures
        r == spec_widen(a, x),
{
    Double { bits: a.eval(Op::Convert, false, x.bits as u64, 0) }
}

/// `x` as a single.
pub open spec fn spec_narrow<A: Arithmetic>(a: &A, x: Double) -> Scalar {
    Scalar { bits: a.value(Op::Convert, true, x.bits, 0) as u32 }
}

/// `x` as a single.
#[verifier::when_used_as_spec(spec_narrow)]
pub fn narrow<A: Arithmetic>(a: &A, x: Double) -> (r: Scalar)
    requires
        a.lawful(),
    ensures
        r == spec_narrow(a, x),
{
    Scalar { bits: a.eval(Op::Convert, true, x.bits, 0) as u32 }
}

/// `n` as a single.
pub open spec fn spec_single_of<A: Arithmetic>(a: &A, n: u64) -> Scalar {
    Scalar { bits: a.value(Op::FromUnsigned, false, n, 0) as u32 }
}

/// `n` as a single.
#[verifier::when_used_as_spec(spec_single_of)]
pub fn single_of<A: Arithmetic>(a: &A, n: u64) -> (r: Scalar)
    requires
        a.lawful(),
    ensures
        r == spec_single_of(a, n),
{
    Scalar { bits: a.eval(Op::FromUnsigned, false, n, 0) as u32 }
}

/// `n` as a single.
pub open spec fn spec_single_of_signed<A: Arithmetic>(a: &A, n: i64) -> Scalar {
    Scalar { bits: a.value(Op::FromSigned, false, n as u64, 0) as u32 }
}

/// `n` as a single.
#[verifier::when_used_as_spec(spec_single_of_signed)]
pub fn single_of_signed<A: Arithmetic>(a: &A, n: i64) -> (r: Scalar)
    requires
        a.lawful(),
    ensures
        r == spec_single_of_signed(a, n),
{
    Scalar { bits: a.eval(Op::FromSigned, false, n as u64, 0) as u32 }
}

/// `n` as a double.
pub open spec fn spec_double_of<A: Arithmetic>(a: &A, n: u64) -> Double {
    Double { bits: a.value(Op::FromUnsigned, true, n, 0) }
}

/// `n` as a double.
#[verifier::when_used_as_spec(spec_double_of)]
pub fn double_of<A: Arithmetic>(a: &A, n: u64) -> (r: Double)
    requires
        a.lawful(),
    ensures
        r == spec_double_of(a, n),
{
    Double { bits: a.eval(Op::FromUnsigned, true, n, 0) }
}

/// `n`, or `max` if that is less.
pub open spec fn spec_at_most(n: u64, max: u64) -> u64 {
    if n > max {
        max
    } else {
        n
    }
}

#[verifier::when_used_as_spec(spec_at_most)]
pub fn at_most(n: u64, max: u64) -> (r: u64)
    ensures
        r == spec_at_most(n, max),
{
    if n > max {
        max
    } else {
        n
    }
}

/// The `i32` nearest to `n`.
pub open spec fn spec_saturate(n: i64) -> i32 {
    if n > 0x7fff_ffff {
        0x7fff_ffff
    } else if n < -0x8000_0000 {
        i32::MIN
    } else {
        n as i32
    }
}

#[verifier::when_used_as_spec(spec_saturate)]
pub fn saturate(n: i64) -> (r: i32)
    ensures
        r == spec_saturate(n),
{
    if n > 0x7fff_ffff {
        0x7fff_ffff
    } else if n < -0x8000_0000 {
        i32::MIN
    } else {
        n as i32
    }
}

/// The integer part of `x`, at most `max`.
pub open spec fn spec_to_unsigned<A: Arithmetic>(a: &A, x: Scalar, max: u64) -> u64 {
    at_most(a.value(Op::ToUnsigned, false, x.bits as u64, 0), max)
}

/// The integer part of `x`, at most `max`.
#[verifier::when_used_as_spec(spec_to_unsigned)]
pub fn to_unsigned<A: Arithmetic>(a: &A, x: Scalar, max: u64) -> (r: u64)
    requires
        a.lawful(),
    ensures
        r == spec_to_unsigned(a, x, max),
        r <= max,
{
    at_most(a.eval(Op::ToUnsigned, false, x.bits as u64, 0), max)
}

/// The integer part of `x` as an `i32`.
pub open spec fn spec_to_i32<A: Arithmetic>(a: &A, x: Scalar) -> i32 {
    saturate(a.value(Op::ToSigned, false, x.bits as u64, 0) as i64)
}

/// The integer part of `x` as an `i32`.
#[verifier::when_used_as_spec(spec_to_i32)]
pub fn to_i32<A: Arithmetic>(a: &A, x: Scalar) -> (r: i32)
    requires
        a.lawful(),
    ensures
        r == spec_to_i32(a, x),
{
    saturate(a.eval(Op::ToSigned, false, x.bits as u64, 0) as i64)
}

/// The integer part of `x` as an `i64`.
pub open spec fn spec_wide_to_i64<A: Arithmetic>(a: &A, x: Double) -> i64 {
    a.value(Op::ToSigned, true, x.bits, 0) as i64
}

/// The integer part of `x` as an `i64`.
#[verifier::when_used_as_spec(spec_wide_to_i64)]
pub fn wide_to_i64<A: Arithmetic>(a: &A, x: Double) -> (r: i64)
    requires
        a.lawful(),
    ensures
        r == spec_wide_to_i64(a, x),
{
    a.eval(Op::ToSigned, true, x.bits, 0) as i64
}

/// The integer part of `x` as an `i32`.
pub open spec fn spec_wide_to_i32<A: Arithmetic>(a: &A, x: Double) -> i32 {
    saturate(wide_to_i64(a, x))
}

/// The integer part of `x` as an `i32`.
#[verifier::when_used_as_spec(spec_wide_to_i32)]
pub fn wide_to_i32<A: Arithmetic>(a: &A, x: Double) -> (r: i32)
    requires
        a.lawful(),
    ensures
        r == spec_wide_to_i32(a, x),
{
    saturate(wide_to_i64(a, x))
}

/// The integer part of `x` as a `u64`.
pub open spec fn spec_wide_to_u64<A: Arithmetic>(a: &A, x: Double) -> u64 {
    a.value(Op::ToUnsigned, true, x.bits, 0)
}

/// The integer part of `x` as a `u64`.
#[verifier::when_used_as_spec(spec_wide_to_u64)]
pub fn wide_to_u64<A: Arithmetic>(a: &A, x: Double) -> (r: u64)
    requires
        a.lawful(),
    ensures
        r == spec_wide_to_u64(a, x),
{
    a.eval(Op::ToUnsigned, true, x.bits, 0)
}

/// The single that `text` denotes.
pub open spec fn single_text<A: Arithmetic>(a: &A, text: Seq<char>) -> Scalar {
    Scalar { bits: a.reading(false, text) as u32 }
}

pub fn read_single<A: Arithmetic>(a: &A, text: &[char]) -> (r: Scalar)
    requires
        a.lawful(),
    ensures
        r == single_text(a, text@),
{
    let text = from_chars(text);
    Scalar { bits: a.read(false, text.as_str()) as u32 }
}

/// The double that `text` denotes.
pub open spec fn double_text<A: Arithmetic>(a: &A, text: Seq<char>) -> Double {
    Double { bits: a.reading(true, text) }
}

pub fn read_double<A: Arithmetic>(a: &A, text: &[char]) -> (r: Double)
    requires
        a.lawful(),
    ensures
        r == double_text(a, text@),
{
    let text = from_chars(text);
    Double { bits: a.read(true, text.as_str()) }
}

/// `x` with `places` digits behind the point.
pub open spec fn fixed<A: Arithmetic>(a: &A, x: Scalar, places: u8) -> Seq<char> {
    a.notation(Style::Fixed(places), x.bits as u64)
}

pub fn show_fixed<A: Arithmetic>(a: &A, x: Scalar, places: u8) -> (s: String)
    requires
        a.lawful(),
    ensures
        s@ == fixed(a, x, places),
{
    a.show(Style::Fixed(places), x.bits as u64)
}

/// `x` with as many digits as it needs.
pub open spec fn plain<A: Arithmetic>(a: &A, x: Double) -> Seq<char> {
    a.notation(Style::Plain, x.bits)
}

pub fn show_plain<A: Arithmetic>(a: &A, x: Double) -> (s: String)
    requires
        a.lawful(),
    ensures
        s@ == plain(a, x),
{
    a.show(Style::Plain, x.bits)
}

proof fn lemma_next_magnitude(m: int)
    requires
        0 <= m,
    ensures
        0 <= magnitude_units(m) < magnitude_units(m + 1),
{
    let e = m / 0x80_0000;
    let f = m % 0x80_0000;
    if e > 0 {
        let p = pow2((e - 1) as nat) as int;
        lemma_pow2_pos((e - 1) as nat);
        assert(0 <= (0x80_0000 + f) * p && (0x80_0000 + f) * p + p == (0x80_0000 + f + 1) * p)
            by (nonlinear_arith)
            requires
                f >= 0,
                p >= 1,
        ;
        if f == 0x7f_ffff {
            lemma_pow2_unfold(e as nat);
            assert((m + 1) / 0x80_0000 == e + 1 && (m + 1) % 0x80_0000 == 0);
            assert(pow2(e as nat) == 2 * p);
            assert((e + 1 - 1) as nat == e as nat);
            assert(magnitude_units(m + 1) == 0x80_0000 * (2 * p));
            assert(0x80_0000 * (2 * p) == (0x80_0000 + f + 1) * p) by (nonlinear_arith)
                requires
                    f == 0x7f_ffff,
            ;
        } else {
            assert((m + 1) / 0x80_0000 == e && (m + 1) % 0x80_0000 == f + 1);
            assert(magnitude_units(m + 1) == (0x80_0000 + (f + 1)) * p);
        }
    } else if f == 0x7f_ffff {
        lemma_pow2_pos(0);
        assert(m + 1 == 0x80_0000);
        assert(magnitude_units(m + 1) == 0x80_0000 * pow2(0));
        assert(0x80_0000 * pow2(0) >= 0x80_0000) by (nonlinear_arith)
            requires
                pow2(0) >= 1,
        ;
    } else {
        assert((m + 1) / 0x80_0000 == 0 && (m + 1) % 0x80_0000 == f + 1);
    }
}

proof fn lemma_magnitude_order(m: int, n: int)
    requires
        0 <= m <= n,
    ensures
        0 <= magnitude_units(m) <= magnitude_units(n),
        m < n ==> magnitude_units(m) < magnitude_units(n),
    decreases n - m,
{
    lemma_next_magnitude(m);
    if m < n {
        lemma_magnitude_order(m + 1, n);
    }
}

/// Numbers are ordered as their values are.
pub proof fn lemma_units_order(x: Scalar, y: Scalar)
    ensures
        x.rank() <= y.rank() <==> x.units() <= y.units(),
        x.rank() < y.rank() <==> x.units() < y.units(),
{
    let (p, q) = (x.magnitude(), y.magnitude());
    if p <= q {
        lemma_magnitude_order(p, q);
    } else {
        lemma_magnitude_order(q, p);
    }
    lemma_magnitude_order(0, p);
    lemma_magnitude_order(0, q);
    assert(magnitude_units(0) == 0);
}

/// Zero and one have the values zero and one.
pub proof fn lemma_units_of_one()
    ensures
        (Scalar { bits: 0 }).units() == 0,
        (Scalar { bits: ONE }).units() == unit_count(),
        unit_count() > 0,
{
    lemma_magnitude_order(0, ONE as int);
    assert(magnitude_units(0) == 0);
}

} // verus!
