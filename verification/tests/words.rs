use grbly::arith::{Calculator, Op, Scalar, Style};
use grbly::arith::Double;
use grbly::gcode::words::{has_word, parse_words, strip_comments, Word};

/// The machine's own arithmetic.
type Native = Calculator<
    fn(Op, bool, u64, u64) -> u64,
    fn(bool, &str) -> u64,
    fn(Style, u64) -> String,
>;

// The bits of a number, one pattern for all that are none.
fn single_bits(r: f32) -> u64 {
    if r.is_nan() {
        0x7fc0_0000
    } else {
        r.to_bits() as u64
    }
}

// The bits of a number, one pattern for all that are none.
fn double_bits(r: f64) -> u64 {
    if r.is_nan() {
        0x7ff8_0000_0000_0000
    } else {
        r.to_bits()
    }
}

fn single(op: Op, x: u64, y: u64) -> u64 {
    let a = f32::from_bits(x as u32);
    let b = f32::from_bits(y as u32);
    let r = match op {
        Op::Add => a + b,
        Op::Sub => a - b,
        Op::Mul => a * b,
        Op::Div => a / b,
        Op::Sqrt => a.sqrt(),
        Op::Square => a.powi(2),
        Op::Floor => a.floor(),
        Op::Ceil => a.ceil(),
        Op::Round => a.round(),
        Op::Trunc => a.trunc(),
        Op::Cos => a.cos(),
        Op::Sin => a.sin(),
        Op::Atan2 => a.atan2(b),
        Op::Convert => return double_bits(a as f64),
        Op::FromSigned => (x as i64) as f32,
        Op::FromUnsigned => x as f32,
        Op::ToSigned => return (a as i64) as u64,
        Op::ToUnsigned => return a as u64,
    };
    single_bits(r)
}

fn double(op: Op, x: u64, y: u64) -> u64 {
    let a = f64::from_bits(x);
    let b = f64::from_bits(y);
    let r = match op {
        Op::Add => a + b,
        Op::Sub => a - b,
        Op::Mul => a * b,
        Op::Div => a / b,
        Op::Sqrt => a.sqrt(),
        Op::Square => a.powi(2),
        Op::Floor => a.floor(),
        Op::Ceil => a.ceil(),
        Op::Round => a.round(),
        Op::Trunc => a.trunc(),
        Op::Cos => a.cos(),
        Op::Sin => a.sin(),
        Op::Atan2 => a.atan2(b),
        Op::Convert => return single_bits(a as f32),
        Op::FromSigned => (x as i64) as f64,
        Op::FromUnsigned => x as f64,
        Op::ToSigned => return (a as i64) as u64,
        Op::ToUnsigned => return a as u64,
    };
    double_bits(r)
}

fn calc(op: Op, wide: bool, x: u64, y: u64) -> u64 {
    if wide {
        double(op, x, y)
    } else {
        single(op, x, y)
    }
}

fn read(wide: bool, text: &str) -> u64 {
    if wide {
        double_bits(text.parse::<f64>().unwrap())
    } else {
        single_bits(text.parse::<f32>().unwrap())
    }
}

fn write(style: Style, bits: u64) -> String {
    match style {
        Style::Fixed(places) => format!("{:.*}", places as usize, f32::from_bits(bits as u32)),
        Style::Plain => format!("{}", f64::from_bits(bits)),
    }
}

fn native() -> Native {
    Calculator::new(calc, read, write)
}

fn f(x: f32) -> Scalar {
    Scalar { bits: x.to_bits() }
}

fn word(letter: u8, value: f64) -> Word {
    Word { letter, value: Double { bits: value.to_bits() } }
}

#[test]
fn strips_comments() {
    assert_eq!(strip_comments("G0 X1 (ignore) Y2 ; tail"), "G0 X1  Y2");
    assert_eq!(strip_comments("$$"), "$$");
}

#[test]
fn parses_signed_and_exponent_words() {
    let words = parse_words(&native(), "g1 x+1.5 y-2 z1e-3");
    assert_eq!(words[0], word(b'G', 1.0));
    assert_eq!(words[1], word(b'X', 1.5));
    assert_eq!(words[2], word(b'Y', -2.0));
    assert_eq!(words[3], word(b'Z', 0.001));
}

#[test]
fn strip_comments_dollar() {
    assert_eq!(strip_comments("$$"), "$$");
    assert_eq!(strip_comments("$20=0"), "$20=0");
}

#[test]
fn nested_and_open_comments() {
    assert_eq!(strip_comments("G1 (a (b) c) X2"), "G1  X2");
    assert_eq!(strip_comments("G1 (never closed X2"), "G1");
    assert_eq!(strip_comments("G1 ) X2"), "G1 ) X2");
    assert_eq!(strip_comments("(;) G1 ; X2"), "G1");
    assert_eq!(strip_comments("\u{3000} M5\t"), "M5");
    assert_eq!(strip_comments("; all comment"), "");
}

#[test]
fn stripping_twice_changes_nothing() {
    for line in ["G0 X1 (ignore) Y2 ; tail", " ) a ;", "(((", "G1 (x) (y) Z3"] {
        let once = strip_comments(line);
        assert_eq!(strip_comments(&once), once);
    }
}

#[test]
fn letters_without_numbers_make_no_words() {
    let a = native();
    assert_eq!(parse_words(&a, "X Y. Z- G1").len(), 1);
    assert_eq!(parse_words(&a, "X1.5.2").len(), 1);
    assert_eq!(parse_words(&a, "X1e Y2").len(), 2);
    assert_eq!(parse_words(&a, "X.5 Y5.")[0], word(b'X', 0.5));
    assert_eq!(parse_words(&a, "X.5 Y5.")[1], word(b'Y', 5.0));
    assert_eq!(parse_words(&a, "xinf").len(), 0);
}

#[test]
fn words_are_found_in_either_case() {
    assert!(has_word("g1 z-0.5", b'Z'));
    assert!(has_word("G1 Z-0.5", b'z'));
    assert!(!has_word("G1 X2 (Z3)", b'Z'));
    assert!(!has_word("Z", b'Z'));
}

#[test]
fn equal_numbers() {
    assert_eq!(f(0.0), f(-0.0));
    assert!(f(f32::NAN) != f(f32::NAN));
    assert!(f(1.0) != f(2.0));
}
