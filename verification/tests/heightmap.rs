use grbly::arith::{Calculator, Op, Scalar, Style};
use grbly::grbl::heightmap::{grid_point, HeightMap};

/// The machine's own arithmetic.
type Native = Calculator<
    fn(Op, bool, u64, u64) -> u64,
    fn(bool, &str) -> u64,
    fn(Style, u64) -> String,
>;

// The bits of a number, one pattern for all that are none.
fn single_bits(r: f32) -> u64 {
    if r.is_nan() {
        0x7fc0_0000
    } else {
        r.to_bits() as u64
    }
}

// The bits of a number, one pattern for all that are none.
fn double_bits(r: f64) -> u64 {
    if r.is_nan() {
        0x7ff8_0000_0000_0000
    } else {
        r.to_bits()
    }
}

fn single(op: Op, x: u64, y: u64) -> u64 {
    let a = f32::from_bits(x as u32);
    let b = f32::from_bits(y as u32);
    let r = match op {
        Op::Add => a + b,
        Op::Sub => a - b,
        Op::Mul => a * b,
        Op::Div => a / b,
        Op::Sqrt => a.sqrt(),
        Op::Square => a.powi(2),
        Op::Floor => a.floor(),
        Op::Ceil => a.ceil(),
        Op::Round => a.round(),
        Op::Trunc => a.trunc(),
        Op::Cos => a.cos(),
        Op::Sin => a.sin(),
        Op::Atan2 => a.atan2(b),
        Op::Convert => return double_bits(a as f64),
        Op::FromSigned => (x as i64) as f32,
        Op::FromUnsigned => x as f32,
        Op::ToSigned => return (a as i64) as u64,
        Op::ToUnsigned => return a as u64,
    };
    single_bits(r)
}

fn double(op: Op, x: u64, y: u64) -> u64 {
    let a = f64::from_bits(x);
    let b = f64::from_bits(y);
    let r = match op {
        Op::Add => a + b,
        Op::Sub => a - b,
        Op::Mul => a * b,
        Op::Div => a / b,
        Op::Sqrt => a.sqrt(),
        Op::Square => a.powi(2),
        Op::Floor => a.floor(),
        Op::Ceil => a.ceil(),
        Op::Round => a.round(),
        Op::Trunc => a.trunc(),
        Op::Cos => a.cos(),
        Op::Sin => a.sin(),
        Op::Atan2 => a.atan2(b),
        Op::Convert => return single_bits(a as f32),
        Op::FromSigned => (x as i64) as f64,
        Op::FromUnsigned => x as f64,
        Op::ToSigned => return (a as i64) as u64,
        Op::ToUnsigned => return a as u64,
    };
    double_bits(r)
}

fn calc(op: Op, wide: bool, x: u64, y: u64) -> u64 {
    if wide {
        double(op, x, y)
    } else {
        single(op, x, y)
    }
}

fn read(wide: bool, text: &str) -> u64 {
    if wide {
        double_bits(text.parse::<f64>().unwrap())
    } else {
        single_bits(text.parse::<f32>().unwrap())
    }
}

fn write(style: Style, bits: u64) -> String {
    match style {
        Style::Fixed(places) => format!("{:.*}", places as usize, f32::from_bits(bits as u32)),
        Style::Plain => format!("{}", f64::from_bits(bits)),
    }
}

fn native() -> Native {
    Calculator::new(calc, read, write)
}

fn f(x: f32) -> Scalar {
    Scalar { bits: x.to_bits() }
}

fn num(x: Scalar) -> f32 {
    f32::from_bits(x.bits)
}

fn map(min: (f32, f32), max: (f32, f32), gx: u32, gy: u32, z: Vec<f32>) -> Result<HeightMap, String> {
    HeightMap::new(
        (f(min.0), f(min.1)),
        (f(max.0), f(max.1)),
        gx,
        gy,
        z.into_iter().map(f).collect(),
    )
}

fn flat_map() -> HeightMap {
    map((0.0, 0.0), (10.0, 10.0), 2, 2, vec![0.0, 0.0, 0.0, 0.0]).unwrap()
}

fn corner_map() -> HeightMap {
    map((0.0, 0.0), (10.0, 10.0), 2, 2, vec![1.0, 2.0, 3.0, 4.0]).unwrap()
}

fn dz(m: &HeightMap, x: f32, y: f32) -> f32 {
    num(m.dz(&native(), f(x), f(y)))
}

fn parse(text: &str) -> Result<HeightMap, String> {
    let a = native();
    assert!(HeightMap::announces_countable(&a, text));
    HeightMap::parse(&a, text)
}

#[test]
fn flat_map_dz_zero_everywhere() {
    let m = flat_map();
    assert_eq!(dz(&m, 0.0, 0.0), 0.0);
    assert_eq!(dz(&m, 5.0, 5.0), 0.0);
    assert_eq!(dz(&m, 10.0, 10.0), 0.0);
}

#[test]
fn corners_returned_exactly() {
    let m = corner_map();
    assert_eq!(dz(&m, 0.0, 0.0), 1.0);
    assert_eq!(dz(&m, 10.0, 0.0), 2.0);
    assert_eq!(dz(&m, 0.0, 10.0), 3.0);
    assert_eq!(dz(&m, 10.0, 10.0), 4.0);
}

#[test]
fn bilinear_midpoint() {
    let m = map((0.0, 0.0), (10.0, 10.0), 2, 2, vec![0.0, 1.0, 1.0, 2.0]).unwrap();
    assert!((dz(&m, 5.0, 5.0) - 1.0).abs() < 1e-5);
}

#[test]
fn dz_clamps_outside_bbox() {
    let m = corner_map();
    assert_eq!(dz(&m, -100.0, -100.0), 1.0);
    assert_eq!(dz(&m, 100.0, 100.0), 4.0);
}

#[test]
fn serialize_roundtrip() {
    let m = map(
        (1.0, 2.0),
        (11.0, 22.0),
        3,
        3,
        vec![0.0, 0.1, 0.2, 0.05, 0.15, 0.25, 0.1, 0.2, 0.3],
    )
    .unwrap();
    let s = m.serialize(&native());
    let m2 = parse(&s).unwrap();
    assert_eq!(m, m2);
}

#[test]
fn rejects_invalid_grid() {
    assert!(map((0.0, 0.0), (1.0, 1.0), 1, 2, vec![0.0, 0.0]).is_err());
}

#[test]
fn rejects_length_mismatch() {
    assert!(map((0.0, 0.0), (1.0, 1.0), 2, 2, vec![0.0, 0.0]).is_err());
}

#[test]
fn reasons_for_refusal() {
    assert_eq!(
        map((0.0, 0.0), (1.0, 1.0), 2, 1, vec![0.0]).unwrap_err(),
        "grid_x and grid_y must be >= 2"
    );
    assert_eq!(
        map((0.0, 0.0), (1.0, 0.0), 2, 2, vec![0.0]).unwrap_err(),
        "bbox_max must be strictly greater than bbox_min"
    );
    assert_eq!(
        map((0.0, 0.0), (1.0, 1.0), 2, 3, vec![0.0]).unwrap_err(),
        "z length 1 does not match grid 2x3"
    );
}

#[test]
fn exact_text() {
    let m = map((0.0, -1.5), (10.0, 10.0), 2, 2, vec![0.12345, 2.0, -3.0, 4.0]).unwrap();
    let text = "HEIGHTMAP v1\nbbox 0.0000 -1.5000 10.0000 10.0000\ngrid 2 2\n\
                0.1235 2.0000\n-3.0000 4.0000\n";
    assert_eq!(m.serialize(&native()), text);
    assert_eq!(num(parse(text).unwrap().z[0]), 0.1235);
}

#[test]
fn loose_text_is_read() {
    let m = parse("  HEIGHTMAP v1 \r\n bbox 0 0 1e1 +10\r\ngrid +2 2\r\n1 2 3\r\n4").unwrap();
    assert_eq!(m, corner_map());
}

#[test]
fn reasons_why_a_text_is_no_map() {
    let head = "HEIGHTMAP v1\nbbox 0 0 1 1\n";
    assert_eq!(parse("").unwrap_err(), "empty input");
    assert_eq!(parse("MAP\n").unwrap_err(), "bad header MAP");
    assert_eq!(parse("HEIGHTMAP v1\n").unwrap_err(), "missing bbox");
    assert_eq!(parse("HEIGHTMAP v1\nbox 0 0 1 1\n").unwrap_err(), "bad bbox box 0 0 1 1");
    assert_eq!(parse("HEIGHTMAP v1\nbbox 0 0 1\n").unwrap_err(), "bad bbox bbox 0 0 1");
    assert_eq!(parse("HEIGHTMAP v1\nbbox 0 0 a 1\n").unwrap_err(), "invalid float literal");
    assert_eq!(parse(head).unwrap_err(), "missing grid");
    assert_eq!(parse(&format!("{head}grid 2\n")).unwrap_err(), "bad grid grid 2");
    assert_eq!(parse(&format!("{head}grid -2 2\n")).unwrap_err(), "bad grid_x");
    assert_eq!(parse(&format!("{head}grid 2 4294967296\n")).unwrap_err(), "bad grid_y");
    assert_eq!(parse(&format!("{head}grid 2 2\n1 2\n")).unwrap_err(), "missing row");
    assert_eq!(parse(&format!("{head}grid 2 2\n1 x\n3 4\n")).unwrap_err(), "bad z x");
    assert_eq!(
        parse(&format!("{head}grid 2 2\n1\n3 4\n")).unwrap_err(),
        "z length 3 does not match grid 2x2"
    );
    assert_eq!(
        parse(&format!("{head}grid 1 1\n1\n")).unwrap_err(),
        "grid_x and grid_y must be >= 2"
    );
}

#[test]
fn grids_too_large_to_count() {
    let a = native();
    let text = "HEIGHTMAP v1\nbbox 0 0 1 1\ngrid 100000 100000\n";
    assert!(!HeightMap::announces_countable(&a, text));
    assert!(HeightMap::announces_countable(&a, "bad"));
}

#[test]
fn maps_that_cannot_be_read() {
    assert!(corner_map().is_sound());
    let odd = map((f32::NAN, 0.0), (1.0, 1.0), 2, 2, vec![0.0; 4]).unwrap();
    assert!(!odd.is_sound());
    let mut short = corner_map();
    short.z.pop();
    assert!(!short.is_sound());
}

#[test]
fn points_of_a_grid() {
    let a = native();
    let at = |idx: usize| {
        let (x, y) = grid_point(&a, (f(0.0), f(10.0)), (f(4.0), f(30.0)), 3, 2, idx);
        (num(x), num(y))
    };
    assert_eq!(at(0), (0.0, 10.0));
    assert_eq!(at(1), (2.0, 10.0));
    assert_eq!(at(5), (4.0, 30.0));
    let (x, _) = grid_point(&a, (f(1.0), f(1.0)), (f(4.0), f(3.0)), 1, 1, 0);
    assert_eq!(num(x), 1.0);
}

#[test]
fn least_and_greatest_height() {
    let (lo, hi) = corner_map().z_min_max();
    assert_eq!((num(lo), num(hi)), (1.0, 4.0));
    let mut odd = corner_map();
    odd.z[0] = f(f32::NAN);
    let (lo, hi) = odd.z_min_max();
    assert_eq!((num(lo), num(hi)), (2.0, 4.0));
}

fn bumpy_map() -> HeightMap {
    map(
        (-1.7, 3.3),
        (12.9, 40.1),
        4,
        3,
        vec![0.1, -0.37, 2.25, 0.013, 1.99, -3.3, 0.77, 0.5, -0.001, 1.125, 0.3333333, -2.6],
    )
    .unwrap()
}

#[test]
fn heights_lie_between_the_extremes() {
    let m = bumpy_map();
    let (lo, hi) = m.z_min_max();
    let (lo, hi) = (num(lo), num(hi));
    for i in -5..=45 {
        for j in -5..=45 {
            let h = dz(&m, -1.7 + 0.365 * i as f32, 3.3 + 0.92 * j as f32);
            assert!(lo - 1e-5 <= h && h <= hi + 1e-5, "{h}");
        }
    }
}

#[test]
fn heights_at_grid_points_are_the_stored_ones() {
    let a = native();
    let m = bumpy_map();
    for idx in 0..m.z.len() {
        let (x, y) = grid_point(&a, m.bbox_min, m.bbox_max, m.grid_x, m.grid_y, idx);
        assert!((num(m.dz(&a, x, y)) - num(m.z[idx])).abs() < 1e-4);
    }
}

#[test]
fn writing_what_was_read_gives_the_same_text() {
    let a = native();
    let m = map(
        (-0.000_012, 1.234_567),
        (0.001_5, 123_456.79),
        2,
        2,
        vec![0.333_333_34, -2.000_049, 16_777_217.0, -0.000_04],
    )
    .unwrap();
    let text = m.serialize(&a);
    let back = parse(&text).unwrap();
    assert_eq!(back.serialize(&a), text);
    assert_eq!((back.grid_x, back.grid_y), (m.grid_x, m.grid_y));
    for (old, new) in m.z.iter().zip(back.z.iter()) {
        assert!((num(*old) as f64 - num(*new) as f64).abs() <= 0.0001);
    }
}
