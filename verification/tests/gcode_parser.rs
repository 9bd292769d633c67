use grbly::arith::{Calculator, Op, Scalar, Style};
use grbly::gcode::parser::parse_with_bounds;
use grbly::grbl::state::{Segment, Vec3};

/// The machine's own arithmetic.
type Native = Calculator<
    fn(Op, bool, u64, u64) -> u64,
    fn(bool, &str) -> u64,
    fn(Style, u64) -> String,
>;

// The bits of a number, one pattern for all that are none.
fn single_bits(r: f32) -> u64 {
    if r.is_nan() {
        0x7fc0_0000
    } else {
        r.to_bits() as u64
    }
}

// The bits of a number, one pattern for all that are none.
fn double_bits(r: f64) -> u64 {
    if r.is_nan() {
        0x7ff8_0000_0000_0000
    } else {
        r.to_bits()
    }
}

fn single(op: Op, x: u64, y: u64) -> u64 {
    let a = f32::from_bits(x as u32);
    let b = f32::from_bits(y as u32);
    let r = match op {
        Op::Add => a + b,
        Op::Sub => a - b,
        Op::Mul => a * b,
        Op::Div => a / b,
        Op::Sqrt => a.sqrt(),
        Op::Square => a.powi(2),
        Op::Floor => a.floor(),
        Op::Ceil => a.ceil(),
        Op::Round => a.round(),
        Op::Trunc => a.trunc(),
        Op::Cos => a.cos(),
        Op::Sin => a.sin(),
        Op::Atan2 => a.atan2(b),
        Op::Convert => return double_bits(a as f64),
        Op::FromSigned => (x as i64) as f32,
        Op::FromUnsigned => x as f32,
        Op::ToSigned => return (a as i64) as u64,
        Op::ToUnsigned => return a as u64,
    };
    single_bits(r)
}

fn double(op: Op, x: u64, y: u64) -> u64 {
    let a = f64::from_bits(x);
    let b = f64::from_bits(y);
    let r = match op {
        Op::Add => a + b,
        Op::Sub => a - b,
        Op::Mul => a * b,
        Op::Div => a / b,
        Op::Sqrt => a.sqrt(),
        Op::Square => a.powi(2),
        Op::Floor => a.floor(),
        Op::Ceil => a.ceil(),
        Op::Round => a.round(),
        Op::Trunc => a.trunc(),
        Op::Cos => a.cos(),
        Op::Sin => a.sin(),
        Op::Atan2 => a.atan2(b),
        Op::Convert => return single_bits(a as f32),
        Op::FromSigned => (x as i64) as f64,
        Op::FromUnsigned => x as f64,
        Op::ToSigned => return (a as i64) as u64,
        Op::ToUnsigned => return a as u64,
    };
    double_bits(r)
}

fn calc(op: Op, wide: bool, x: u64, y: u64) -> u64 {
    if wide {
        double(op, x, y)
    } else {
        single(op, x, y)
    }
}

fn read(wide: bool, text: &str) -> u64 {
    if wide {
        double_bits(text.parse::<f64>().unwrap())
    } else {
        single_bits(text.parse::<f32>().unwrap())
    }
}

fn write(style: Style, bits: u64) -> String {
    match style {
        Style::Fixed(places) => format!("{:.*}", places as usize, f32::from_bits(bits as u32)),
        Style::Plain => format!("{}", f64::from_bits(bits)),
    }
}

fn native() -> Native {
    Calculator::new(calc, read, write)
}

fn f(x: f32) -> Scalar {
    Scalar { bits: x.to_bits() }
}

fn num(x: Scalar) -> f32 {
    f32::from_bits(x.bits)
}

fn v(x: f32, y: f32, z: f32) -> Vec3 {
    Vec3 { x: f(x), y: f(y), z: f(z) }
}

fn lines(strs: &[&str]) -> Vec<String> {
    strs.iter().map(|s| s.to_string()).collect()
}

fn parse(lines: &[String]) -> Vec<Segment> {
    let (segs, _, _) = parse_with_bounds(&native(), lines);
    segs
}

#[test]
fn linear_moves() {
    let segs = parse(&lines(&["G90 G21", "G0 X10 Y10 Z5", "G1 X20 Y20 Z-1 F500"]));
    assert_eq!(segs.len(), 2);
    assert!(segs[0].rapid);
    assert_eq!(segs[0].end, v(10.0, 10.0, 5.0));
    assert!(!segs[1].rapid);
    assert_eq!(segs[1].end.x, f(20.0));
    assert_eq!(segs[1].end.y, f(20.0));
}

#[test]
fn incremental_mode() {
    let segs = parse(&lines(&["G91", "G0 X5 Y5", "G0 X5 Y5"]));
    assert_eq!(segs.len(), 2);
    assert_eq!(segs[1].end.x, f(10.0));
    assert_eq!(segs[1].end.y, f(10.0));
}

#[test]
fn arc_cw() {
    let segs = parse(&lines(&["G90 G21", "G0 X10 Y0", "G2 X0 Y10 I-10 J0"]));
    let arc_segs: Vec<_> = segs.iter().filter(|s| !s.rapid).collect();
    assert!(arc_segs.len() >= 8);
    let last = &segs[segs.len() - 1];
    assert!(num(last.end.x).abs() < 0.1);
    assert!((num(last.end.y) - 10.0).abs() < 0.1);
}

#[test]
fn comment_stripping() {
    let segs = parse(&lines(&[
        "G0 X10 (this is a comment)",
        "; full line comment",
        "G0 X20",
    ]));
    assert_eq!(segs.len(), 2);
}

#[test]
fn bounds() {
    let (_, bmin, bmax) =
        parse_with_bounds(&native(), &lines(&["G0 X-5 Y-10", "G0 X50 Y30 Z-3"]));
    assert_eq!(bmin.x, f(-5.0));
    assert_eq!(bmin.y, f(-10.0));
    assert_eq!(bmin.z, f(-3.0));
    assert_eq!(bmax.x, f(50.0));
    assert_eq!(bmax.y, f(30.0));
    assert_eq!(bmax.z, f(0.0));
}

#[test]
fn parser_inch_mode_scales_to_mm() {
    let segs = parse(&lines(&["G20", "G0 X1 Y0.5"]));
    assert_eq!(segs[0].end.x, f(25.4));
    assert_eq!(segs[0].end.y, f(12.7));
}

#[test]
fn arc_with_radius_word() {
    let segs = parse(&lines(&["G90 G21", "G0 X10 Y0", "G3 X0 Y10 R10"]));
    assert!(segs.len() > 2);
    let last = segs.last().unwrap();
    assert!(num(last.end.x).abs() < 0.1);
    assert!((num(last.end.y) - 10.0).abs() < 0.1);
}

#[test]
fn quarter_circle_has_nine_steps() {
    let segs = parse(&lines(&["G0 X10 Y0", "G3 X0 Y10 I-10 J0 Z-9"]));
    assert_eq!(segs.len(), 1 + 9);
    assert!((num(segs[1].end.z) + 1.0).abs() < 1e-5);
    assert!(segs.iter().skip(1).all(|s| s.line == 1));
    for pair in segs.windows(2) {
        assert_eq!(pair[0].end, pair[1].start);
    }
}

#[test]
fn negative_radius_takes_the_longer_arc() {
    let short = parse(&lines(&["G0 X10 Y0", "G3 X0 Y10 R10"])).len();
    let long = parse(&lines(&["G0 X10 Y0", "G3 X0 Y10 R-10"])).len();
    assert!(long > 2 * short);
}

#[test]
fn radius_too_small_circles_around_the_start() {
    let segs = parse(&lines(&["G0 X10 Y0", "G3 X0 Y10 R1"]));
    assert!(segs.len() > 1);
    assert_eq!(segs[1].end.x, f(10.0));
}

#[test]
fn lines_without_moves_make_no_segments() {
    assert!(parse(&lines(&["M3 S1000", "F200", "", "G4 P1", "I3 J4"])).is_empty());
    assert_eq!(parse(&lines(&["G1"])).len(), 1);
}

#[test]
fn modes_last() {
    let segs = parse(&lines(&["G1 X1", "X2", "G91 X3", "G90 X-1"]));
    let ends: Vec<f32> = segs.iter().map(|s| num(s.end.x)).collect();
    assert_eq!(ends, vec![1.0, 2.0, 5.0, -1.0]);
    assert!(segs.iter().all(|s| !s.rapid));
}

#[test]
fn later_lines_leave_earlier_segments_alone() {
    let all = lines(&["G21 G90", "G0 X10 Y0", "G3 X0 Y10 I-10 J0", "G91 G1 Z-1", "G20 X1", "(end)"]);
    let whole = parse(&all);
    for n in 0..=all.len() {
        let part = parse(&all[..n]);
        assert_eq!(part.as_slice(), &whole[..part.len()]);
    }
}
