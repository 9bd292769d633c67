use grbly::arith::{Calculator, Op, Scalar, Style};
use grbly::grbl::state::{Segment, Vec3};
use grbly::material::MaterialField;

/// The machine's own arithmetic.
type Native = Calculator<
    fn(Op, bool, u64, u64) -> u64,
    fn(bool, &str) -> u64,
    fn(Style, u64) -> String,
>;

// The bits of a number, one pattern for all that are none.
fn single_bits(r: f32) -> u64 {
    if r.is_nan() {
        0x7fc0_0000
    } else {
        r.to_bits() as u64
    }
}

// The bits of a number, one pattern for all that are none.
fn double_bits(r: f64) -> u64 {
    if r.is_nan() {
        0x7ff8_0000_0000_0000
    } else {
        r.to_bits()
    }
}

fn single(op: Op, x: u64, y: u64) -> u64 {
    let a = f32::from_bits(x as u32);
    let b = f32::from_bits(y as u32);
    let r = match op {
        Op::Add => a + b,
        Op::Sub => a - b,
        Op::Mul => a * b,
        Op::Div => a / b,
        Op::Sqrt => a.sqrt(),
        Op::Square => a.powi(2),
        Op::Floor => a.floor(),
        Op::Ceil => a.ceil(),
        Op::Round => a.round(),
        Op::Trunc => a.trunc(),
        Op::Cos => a.cos(),
        Op::Sin => a.sin(),
        Op::Atan2 => a.atan2(b),
        Op::Convert => return double_bits(a as f64),
        Op::FromSigned => (x as i64) as f32,
        Op::FromUnsigned => x as f32,
        Op::ToSigned => return (a as i64) as u64,
        Op::ToUnsigned => return a as u64,
    };
    single_bits(r)
}

fn double(op: Op, x: u64, y: u64) -> u64 {
    let a = f64::from_bits(x);
    let b = f64::from_bits(y);
    let r = match op {
        Op::Add => a + b,
        Op::Sub => a - b,
        Op::Mul => a * b,
        Op::Div => a / b,
        Op::Sqrt => a.sqrt(),
        Op::Square => a.powi(2),
        Op::Floor => a.floor(),
        Op::Ceil => a.ceil(),
        Op::Round => a.round(),
        Op::Trunc => a.trunc(),
        Op::Cos => a.cos(),
        Op::Sin => a.sin(),
        Op::Atan2 => a.atan2(b),
        Op::Convert => return single_bits(a as f32),
        Op::FromSigned => (x as i64) as f64,
        Op::FromUnsigned => x as f64,
        Op::ToSigned => return (a as i64) as u64,
        Op::ToUnsigned => return a as u64,
    };
    double_bits(r)
}

fn calc(op: Op, wide: bool, x: u64, y: u64) -> u64 {
    if wide {
        double(op, x, y)
    } else {
        single(op, x, y)
    }
}

fn read(wide: bool, text: &str) -> u64 {
    if wide {
        double_bits(text.parse::<f64>().unwrap())
    } else {
        single_bits(text.parse::<f32>().unwrap())
    }
}

fn write(style: Style, bits: u64) -> String {
    match style {
        Style::Fixed(places) => format!("{:.*}", places as usize, f32::from_bits(bits as u32)),
        Style::Plain => format!("{}", f64::from_bits(bits)),
    }
}

fn native() -> Native {
    Calculator::new(calc, read, write)
}

fn f(x: f32) -> Scalar {
    Scalar { bits: x.to_bits() }
}

fn num(x: Scalar) -> f32 {
    f32::from_bits(x.bits)
}

fn v(x: f32, y: f32, z: f32) -> Vec3 {
    Vec3 { x: f(x), y: f(y), z: f(z) }
}

fn seg(start: Vec3, end: Vec3, rapid: bool, line: usize) -> Segment {
    Segment { start, end, rapid, line }
}

fn field() -> MaterialField {
    let a = native();
    let (bmin, bmax) = (v(0.0, 0.0, -2.0), v(10.0, 5.0, 0.0));
    assert!(MaterialField::can_hold(&a, bmin, bmax, f(1.0)));
    MaterialField::new(&a, bmin, bmax, f(1.0))
}

fn path() -> Vec<Segment> {
    vec![
        seg(v(0.0, 0.0, 5.0), v(1.0, 1.0, 5.0), true, 0),
        seg(v(1.0, 1.0, -1.0), v(5.0, 1.0, -1.0), false, 1),
        seg(v(5.0, 1.0, -2.0), v(5.0, 4.0, -0.5), false, 2),
        seg(v(5.0, 4.0, 1.0), v(0.0, 0.0, 1.0), false, 3),
    ]
}

fn bits(field: &MaterialField) -> Vec<u32> {
    field.heights.iter().map(|h| h.bits).collect()
}

fn height(field: &MaterialField, x: f32, y: f32) -> f32 {
    let ix = ((x - num(field.bbox_min_x)) / num(field.res)) as usize;
    let iy = ((y - num(field.bbox_min_y)) / num(field.res)) as usize;
    num(field.heights[iy * field.nx + ix])
}

#[test]
fn untouched_stock() {
    let m = field();
    assert_eq!(num(m.res), 0.35);
    assert_eq!((num(m.bbox_min_x), num(m.bbox_min_y)), (-1.0, -1.0));
    assert_eq!((m.nx, m.ny), (35, 20));
    assert_eq!(m.heights.len(), 35 * 20);
    assert!(m.heights.iter().all(|h| num(*h) == 0.02));
    assert_eq!(num(m.z_floor), -2.0);
    assert_eq!((m.carved_up_to, m.version), (0, 1));
}

#[test]
fn cells_of_tiny_and_huge_tools() {
    let a = native();
    let (bmin, bmax) = (v(0.0, 0.0, 1.0), v(0.0, 0.0, 1.0));
    let tiny = MaterialField::new(&a, bmin, bmax, f(0.01));
    assert_eq!(num(tiny.res), 0.08);
    assert_eq!(num(tiny.z_floor), -0.1);
    let huge = MaterialField::new(&a, bmin, bmax, f(10.0));
    assert_eq!(num(huge.res), 0.6);
    let endless = v(f32::INFINITY, f32::INFINITY, 0.0);
    assert!(!MaterialField::can_hold(&a, bmin, endless, f(1.0)));
}

#[test]
fn cutting_lowers_what_the_tool_passes() {
    let a = native();
    let mut m = field();
    m.carve_up_to(&a, &path(), 2);
    assert_eq!(height(&m, 3.0, 1.0), -1.0);
    assert_eq!(num(m.heights[0]), 0.02);
    assert_eq!(height(&m, 3.0, 3.0), 0.02);
    assert_eq!((m.carved_up_to, m.version), (2, 2));
    m.carve_up_to(&a, &path(), 99);
    assert!(height(&m, 5.0, 1.1) < -1.5);
    assert_eq!((m.carved_up_to, m.version), (4, 3));
    m.carve_up_to(&a, &path(), 4);
    assert_eq!(m.version, 3);
    assert!(m.heights.iter().all(|h| num(*h) <= num(m.z_top)));
}

#[test]
fn only_the_number_of_cut_segments_matters() {
    let a = native();
    let mut direct = field();
    direct.carve_up_to(&a, &path(), 3);
    let mut detour = field();
    for target in [1, 2, 4, 2, 0, 3] {
        detour.carve_up_to(&a, &path(), target);
    }
    assert_eq!(bits(&direct), bits(&detour));
    detour.reset();
    assert_eq!(bits(&detour), bits(&field()));
    assert_eq!(detour.carved_up_to, 0);
}

#[test]
fn rapid_and_high_moves_cut_nothing() {
    let a = native();
    let mut m = field();
    let moves = vec![
        seg(v(0.0, 0.0, -5.0), v(5.0, 5.0, -5.0), true, 0),
        seg(v(0.0, 0.0, 0.02), v(5.0, 5.0, 3.0), false, 0),
    ];
    m.carve_up_to(&a, &moves, 2);
    assert_eq!(bits(&m), bits(&field()));
    assert_eq!(m.carved_up_to, 2);
}

#[test]
fn a_plunge_cuts_a_round_hole() {
    let a = native();
    let mut m = field();
    m.carve_up_to(&a, &[seg(v(5.0, 2.0, 0.0), v(5.0, 2.0, -1.0), false, 0)], 1);
    let cut = m.heights.iter().filter(|h| num(**h) < 0.02).count();
    assert!(cut >= 4 && cut <= 9, "{cut}");
    assert!(m.heights.iter().all(|h| num(*h) == 0.02 || num(*h) == 0.0));
}
