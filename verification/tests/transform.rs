use grbly::arith::{Calculator, Op, Scalar, Style};
use grbly::gcode::transform::transform_for_stream;
use grbly::grbl::heightmap::HeightMap;
use grbly::grbl::state::Orientation;

/// The machine's own arithmetic.
type Native = Calculator<
    fn(Op, bool, u64, u64) -> u64,
    fn(bool, &str) -> u64,
    fn(Style, u64) -> String,
>;

// The bits of a number, one pattern for all that are none.
fn single_bits(r: f32) -> u64 {
    if r.is_nan() {
        0x7fc0_0000
    } else {
        r.to_bits() as u64
    }
}

// The bits of a number, one pattern for all that are none.
fn double_bits(r: f64) -> u64 {
    if r.is_nan() {
        0x7ff8_0000_0000_0000
    } else {
        r.to_bits()
    }
}

fn single(op: Op, x: u64, y: u64) -> u64 {
    let a = f32::from_bits(x as u32);
    let b = f32::from_bits(y as u32);
    let r = match op {
        Op::Add => a + b,
        Op::Sub => a - b,
        Op::Mul => a * b,
        Op::Div => a / b,
        Op::Sqrt => a.sqrt(),
        Op::Square => a.powi(2),
        Op::Floor => a.floor(),
        Op::Ceil => a.ceil(),
        Op::Round => a.round(),
        Op::Trunc => a.trunc(),
        Op::Cos => a.cos(),
        Op::Sin => a.sin(),
        Op::Atan2 => a.atan2(b),
        Op::Convert => return double_bits(a as f64),
        Op::FromSigned => (x as i64) as f32,
        Op::FromUnsigned => x as f32,
        Op::ToSigned => return (a as i64) as u64,
        Op::ToUnsigned => return a as u64,
    };
    single_bits(r)
}

fn double(op: Op, x: u64, y: u64) -> u64 {
    let a = f64::from_bits(x);
    let b = f64::from_bits(y);
    let r = match op {
        Op::Add => a + b,
        Op::Sub => a - b,
        Op::Mul => a * b,
        Op::Div => a / b,
        Op::Sqrt => a.sqrt(),
        Op::Square => a.powi(2),
        Op::Floor => a.floor(),
        Op::Ceil => a.ceil(),
        Op::Round => a.round(),
        Op::Trunc => a.trunc(),
        Op::Cos => a.cos(),
        Op::Sin => a.sin(),
        Op::Atan2 => a.atan2(b),
        Op::Convert => return single_bits(a as f32),
        Op::FromSigned => (x as i64) as f64,
        Op::FromUnsigned => x as f64,
        Op::ToSigned => return (a as i64) as u64,
        Op::ToUnsigned => return a as u64,
    };
    double_bits(r)
}

fn calc(op: Op, wide: bool, x: u64, y: u64) -> u64 {
    if wide {
        double(op, x, y)
    } else {
        single(op, x, y)
    }
}

fn read(wide: bool, text: &str) -> u64 {
    if wide {
        double_bits(text.parse::<f64>().unwrap())
    } else {
        single_bits(text.parse::<f32>().unwrap())
    }
}

fn write(style: Style, bits: u64) -> String {
    match style {
        Style::Fixed(places) => format!("{:.*}", places as usize, f32::from_bits(bits as u32)),
        Style::Plain => format!("{}", f64::from_bits(bits)),
    }
}

fn native() -> Native {
    Calculator::new(calc, read, write)
}

fn f(x: f32) -> Scalar {
    Scalar { bits: x.to_bits() }
}

fn map(z: Vec<f32>) -> HeightMap {
    let z = z.into_iter().map(f).collect();
    HeightMap::new((f(0.0), f(0.0)), (f(50.0), f(50.0)), 2, 2, z).unwrap()
}

fn flat_map() -> HeightMap {
    map(vec![0.0; 4])
}

fn tilt_map() -> HeightMap {
    map(vec![0.0, 0.5, 0.0, 0.5])
}

fn lines(strs: &[&str]) -> Vec<String> {
    strs.iter().map(|s| s.to_string()).collect()
}

fn transform(
    input: &[String],
    map: Option<&HeightMap>,
    orientation: Orientation,
) -> (Vec<String>, Vec<usize>) {
    transform_for_stream(&native(), input, map, orientation)
}

#[test]
fn no_heightmap_is_identity() {
    let input = lines(&["G90 G21", "G0 X10", "G1 X20 F100", "M3 S1000"]);
    let (out, src) = transform(&input, None, Orientation::default());
    assert_eq!(out, input);
    assert_eq!(src, vec![0, 1, 2, 3]);
}

#[test]
fn flat_map_preserves_z_at_end_of_move() {
    let m = flat_map();
    let input = lines(&["G90 G21", "G1 X10 Y0 Z-0.1 F200"]);
    let (out, _src) = transform(&input, Some(&m), Orientation::default());
    let last = out.iter().rev().find(|l| l.contains("G1")).unwrap();
    assert!(last.contains("X10.000"), "{last}");
    assert!(last.contains("Z-0.1000"), "{last}");
}

#[test]
fn tilt_map_offsets_z_along_x() {
    let m = tilt_map();
    let input = lines(&["G90 G21", "G1 X50 Y0 Z0 F200"]);
    let (out, _) = transform(&input, Some(&m), Orientation::default());
    let last_motion = out
        .iter()
        .rev()
        .find(|l| l.contains("G1") && l.contains("X"))
        .unwrap();
    assert!(last_motion.contains("X50.000"));
    assert!(last_motion.contains("Z0.5000"));
    let first_motion = out.iter().find(|l| l.contains("G1") && l.contains("X1.")).unwrap();
    assert!(first_motion.contains("Z0.0100"));
}

#[test]
fn subdivision_count_matches_chunk_size() {
    let m = flat_map();
    let input = lines(&["G90 G21", "G1 X10 Y0 F100"]);
    let (out, _) = transform(&input, Some(&m), Orientation::default());
    assert_eq!(out.iter().filter(|l| l.contains("G1")).count(), 10);
}

#[test]
fn z_only_move_emits_single_line() {
    let m = tilt_map();
    let input = lines(&["G90 G21", "G0 X25 Y25", "G1 Z-0.1 F100"]);
    let (out, _) = transform(&input, Some(&m), Orientation::default());
    let z_lines: Vec<_> = out
        .iter()
        .filter(|l| l.contains("G1") && !l.contains("F100"))
        .collect();
    let _ = z_lines;
    let g1_count = out.iter().filter(|l| l.contains("G1")).count();
    assert_eq!(g1_count, 1);
    let line = out.iter().find(|l| l.contains("G1")).unwrap();
    assert!(line.contains("X25.000"));
    assert!(line.contains("Y25.000"));
}

#[test]
fn passes_through_non_motion_lines() {
    let m = flat_map();
    let input = lines(&["G90 G21", "M3 S1000", "G1 X1 F100", "M5"]);
    let (out, _) = transform(&input, Some(&m), Orientation::default());
    assert!(out.iter().any(|l| l == "M3 S1000"));
    assert!(out.iter().any(|l| l == "M5"));
}

#[test]
fn incremental_mode_resolved_to_absolute() {
    let m = flat_map();
    let input = lines(&["G91", "G1 X5 Y0 F100", "G1 X5 Y0"]);
    let (out, _) = transform(&input, Some(&m), Orientation::default());
    let last = out.iter().rev().find(|l| l.contains("G1")).unwrap();
    assert!(last.contains("X10.000"));
}

#[test]
fn transform_inch_mode_scales_to_mm() {
    let m = flat_map();
    let input = lines(&["G20", "G1 X1 Y0 F100"]);
    let (out, _) = transform(&input, Some(&m), Orientation::default());
    let last = out.iter().rev().find(|l| l.contains("G1")).unwrap();
    assert!(last.contains("X25.400"));
}

#[test]
fn source_line_indices_track_original() {
    let m = flat_map();
    let input = lines(&["G90 G21", "G1 X10 Y0 F100", "M5"]);
    let (out, src) = transform(&input, Some(&m), Orientation::default());
    assert_eq!(src.len(), out.len());
    let m5_idx = out.iter().position(|l| l == "M5").unwrap();
    assert_eq!(src[m5_idx], 2);
}

#[test]
fn transpose_swaps_x_and_y() {
    let input = lines(&["G90 G21", "G1 X10 Y3 F100"]);
    let (out, _) = transform(&input, None, Orientation::Transpose);
    let last = out.iter().rev().find(|l| l.contains("G1")).unwrap();
    assert!(last.contains("X3.000"), "{last}");
    assert!(last.contains("Y10.000"), "{last}");
}

#[test]
fn r90_rotates_into_negative_x() {
    let input = lines(&["G90 G21", "G1 X10 Y0 F100"]);
    let (out, _) = transform(&input, None, Orientation::R90);
    let last = out.iter().rev().find(|l| l.contains("G1")).unwrap();
    assert!(last.contains("Y10.000"), "{last}");
    assert!(last.contains("X-0.000") || last.contains("X0.000"), "{last}");
}

#[test]
fn r180_negates_both() {
    let input = lines(&["G90 G21", "G1 X7 Y4 F100"]);
    let (out, _) = transform(&input, None, Orientation::R180);
    let last = out.iter().rev().find(|l| l.contains("G1")).unwrap();
    assert!(last.contains("X-7.000"), "{last}");
    assert!(last.contains("Y-4.000"), "{last}");
}

#[test]
fn rotation_without_heightmap_does_not_subdivide() {
    let input = lines(&["G90 G21", "G1 X10 Y0 F100"]);
    let (out, _) = transform(&input, None, Orientation::R90);
    assert_eq!(out.iter().filter(|l| l.contains("G1")).count(), 1);
}

#[test]
fn heightmap_dz_queried_in_rotated_coords() {
    let m = map(vec![0.0, 0.0, 0.0, 0.5]);
    let input = lines(&["G90 G21", "G1 X50 Y50 F100"]);
    let (out, _) = transform(&input, Some(&m), Orientation::Transpose);
    let last = out.iter().rev().find(|l| l.contains("G1")).unwrap();
    assert!(last.contains("X50.000"), "{last}");
    assert!(last.contains("Y50.000"), "{last}");
    assert!(last.contains("Z0.5000"), "{last}");
}

#[test]
fn mirror_x_negates_x_only() {
    let input = lines(&["G90 G21", "G1 X10 Y5 F100"]);
    let (out, _) = transform(&input, None, Orientation::MirrorX);
    let last = out.iter().rev().find(|l| l.contains("G1")).unwrap();
    assert!(last.contains("X-10.000"), "{last}");
    assert!(last.contains("Y5.000"), "{last}");
}

#[test]
fn exact_lines_of_a_move() {
    let input = lines(&["G1 X2 Z-1 F100 M8 (cool) S1200.5", "G0 X0", "", "G1 Y1"]);
    let (out, src) = transform(&input, None, Orientation::R180);
    assert_eq!(
        out,
        lines(&[
            "M8 S1200.5",
            "G90 G21 G1 X-2.000 Y-0.000 Z-1.0000 F100.0",
            "G90 G21 G0 X-0.000 Y-0.000 Z-1.0000",
            "G90 G21 G1 X-0.000 Y-1.000 Z-1.0000 F100.0",
        ])
    );
    assert_eq!(src, vec![0, 0, 1, 3]);
}

#[test]
fn feedless_cut_has_no_feed_word() {
    let (out, _) = transform(&lines(&["G1 X1"]), None, Orientation::Transpose);
    assert_eq!(out, lines(&["G90 G21 G1 X0.000 Y1.000 Z0.0000"]));
}

#[test]
fn other_words_are_written_out() {
    let input = lines(&["G17 G54 P-3 T1.25 Q2000000000 X1"]);
    let (out, _) = transform(&input, None, Orientation::Transpose);
    assert_eq!(out[0], "G17 G54 P-3 T1.25 Q2000000000");
}

#[test]
fn arcs_are_streamed_in_pieces() {
    let input = lines(&["G0 X10 Y0", "G3 X0 Y10 I-10 J0 F60"]);
    let (out, src) = transform(&input, None, Orientation::Transpose);
    assert_eq!(out.len(), 1 + 9);
    assert!(src.windows(2).all(|p| p[0] <= p[1]));
    assert!(out[9].starts_with("G90 G21 G1 X10.000 Y"), "{}", out[9]);
    assert!(out[9].ends_with("F60.0"), "{}", out[9]);
}
