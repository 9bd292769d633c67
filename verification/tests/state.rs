use grbly::arith::{Calculator, Op, Scalar, Style};
use std::sync::Arc;

use grbly::grbl::coverage::{apply_path_coverage_counts, PathInterval};
use grbly::grbl::state::{
    compute_pass_counts, normalize_pass_tolerance, pass_counts_are_current,
    recompute_soft_limit_violations, soft_limit_bounds, JobState, MachineState, Orientation, Segment,
    Vec3, DEFAULT_PASS_TOLERANCE_MM,
};

/// The machine's own arithmetic.
type Native = Calculator<
    fn(Op, bool, u64, u64) -> u64,
    fn(bool, &str) -> u64,
    fn(Style, u64) -> String,
>;

// The bits of a number, one pattern for all that are none.
fn single_bits(r: f32) -> u64 {
    if r.is_nan() {
        0x7fc0_0000
    } else {
        r.to_bits() as u64
    }
}

// The bits of a number, one pattern for all that are none.
fn double_bits(r: f64) -> u64 {
    if r.is_nan() {
        0x7ff8_0000_0000_0000
    } else {
        r.to_bits()
    }
}

fn single(op: Op, x: u64, y: u64) -> u64 {
    let a = f32::from_bits(x as u32);
    let b = f32::from_bits(y as u32);
    let r = match op {
        Op::Add => a + b,
        Op::Sub => a - b,
        Op::Mul => a * b,
        Op::Div => a / b,
        Op::Sqrt => a.sqrt(),
        Op::Square => a.powi(2),
        Op::Floor => a.floor(),
        Op::Ceil => a.ceil(),
        Op::Round => a.round(),
        Op::Trunc => a.trunc(),
        Op::Cos => a.cos(),
        Op::Sin => a.sin(),
        Op::Atan2 => a.atan2(b),
        Op::Convert => return double_bits(a as f64),
        Op::FromSigned => (x as i64) as f32,
        Op::FromUnsigned => x as f32,
        Op::ToSigned => return (a as i64) as u64,
        Op::ToUnsigned => return a as u64,
    };
    single_bits(r)
}

fn double(op: Op, x: u64, y: u64) -> u64 {
    let a = f64::from_bits(x);
    let b = f64::from_bits(y);
    let r = match op {
        Op::Add => a + b,
        Op::Sub => a - b,
        Op::Mul => a * b,
        Op::Div => a / b,
        Op::Sqrt => a.sqrt(),
        Op::Square => a.powi(2),
        Op::Floor => a.floor(),
        Op::Ceil => a.ceil(),
        Op::Round => a.round(),
        Op::Trunc => a.trunc(),
        Op::Cos => a.cos(),
        Op::Sin => a.sin(),
        Op::Atan2 => a.atan2(b),
        Op::Convert => return single_bits(a as f32),
        Op::FromSigned => (x as i64) as f64,
        Op::FromUnsigned => x as f64,
        Op::ToSigned => return (a as i64) as u64,
        Op::ToUnsigned => return a as u64,
    };
    double_bits(r)
}

fn calc(op: Op, wide: bool, x: u64, y: u64) -> u64 {
    if wide {
        double(op, x, y)
    } else {
        single(op, x, y)
    }
}

fn read(wide: bool, text: &str) -> u64 {
    if wide {
        double_bits(text.parse::<f64>().unwrap())
    } else {
        single_bits(text.parse::<f32>().unwrap())
    }
}

fn write(style: Style, bits: u64) -> String {
    match style {
        Style::Fixed(places) => format!("{:.*}", places as usize, f32::from_bits(bits as u32)),
        Style::Plain => format!("{}", f64::from_bits(bits)),
    }
}

fn native() -> Native {
    Calculator::new(calc, read, write)
}

fn f(x: f32) -> Scalar {
    Scalar { bits: x.to_bits() }
}

fn num(x: Scalar) -> f32 {
    f32::from_bits(x.bits)
}

fn v(x: f32, y: f32, z: f32) -> Vec3 {
    Vec3 { x: f(x), y: f(y), z: f(z) }
}

fn seg(start: Vec3, end: Vec3, rapid: bool, line: usize) -> Segment {
    Segment { start, end, rapid, line }
}

fn counts(segments: &[Segment], lines: usize, tolerance: f32) -> (Vec<u16>, Vec<u16>) {
    compute_pass_counts(&native(), segments, lines, f(tolerance))
}

fn limited() -> MachineState {
    MachineState {
        connected: true,
        soft_limits: true,
        max_travel: v(100.0, 100.0, 20.0),
        ..Default::default()
    }
}

#[test]
fn recomputes_soft_limit_violations() {
    let mut job = JobState {
        lines: Arc::new(vec!["G0 X10".into(), "G0 X200".into()]),
        segments: Arc::new(vec![
            seg(Vec3::default(), v(10.0, 0.0, 0.0), true, 0),
            seg(v(10.0, 0.0, 0.0), v(200.0, 0.0, 0.0), true, 1),
        ]),
        ..Default::default()
    };
    let machine = limited();

    assert!(recompute_soft_limit_violations(&native(), &mut job, &machine));
    assert_eq!(job.seg_violations.as_ref().as_slice(), &[false, true]);
    assert_eq!(job.violated_lines.as_ref().as_slice(), &[false, true]);
}

#[test]
fn computes_repeated_segment_pass_counts() {
    let segments = vec![
        seg(Vec3::default(), v(10.0, 0.0, 0.0), false, 0),
        seg(v(10.0, 0.0, 0.0), Vec3::default(), false, 1),
        seg(Vec3::default(), v(0.0, 10.0, 0.0), false, 2),
    ];

    let (seg_counts, line_counts) = compute_pass_counts(
        &native(),
        &segments,
        3,
        Scalar { bits: DEFAULT_PASS_TOLERANCE_MM },
    );

    assert_eq!(seg_counts, vec![2, 2, 1]);
    assert_eq!(line_counts, vec![2, 2, 1]);
}

#[test]
fn a_single_interval_raises_no_count() {
    let interval = |k: usize, start: f32, end: f32| PathInterval {
        segment_index: k,
        start: f(start),
        end: f(end),
    };
    let mut counts: Vec<u16> = vec![0, 0];
    apply_path_coverage_counts(&native(), &vec![interval(0, 0.0, 10.0)], &mut counts);
    assert_eq!(counts, vec![0, 0]);
    apply_path_coverage_counts(&native(), &vec![], &mut counts);
    assert_eq!(counts, vec![0, 0]);
    let both = vec![interval(0, 0.0, 10.0), interval(1, 4.0, 6.0)];
    apply_path_coverage_counts(&native(), &both, &mut counts);
    assert_eq!(counts, vec![2, 2]);
}

#[test]
fn rapid_and_cut_pass_counts_are_separate() {
    let segments = vec![
        seg(Vec3::default(), v(10.0, 0.0, 0.0), false, 0),
        seg(Vec3::default(), v(10.0, 0.0, 0.0), true, 1),
    ];

    let (seg_counts, line_counts) = compute_pass_counts(
        &native(),
        &segments,
        2,
        Scalar { bits: DEFAULT_PASS_TOLERANCE_MM },
    );

    assert_eq!(seg_counts, vec![1, 1]);
    assert_eq!(line_counts, vec![1, 1]);
}

#[test]
fn tolerance_controls_repeated_segment_matching() {
    let segments = vec![
        seg(Vec3::default(), v(10.0, 0.0, 0.0), false, 0),
        seg(v(0.02, -0.01, 0.0), v(10.03, 0.01, 0.0), false, 1),
    ];

    let (loose_seg_counts, loose_line_counts) = counts(&segments, 2, 0.05);
    let (tight_seg_counts, tight_line_counts) = counts(&segments, 2, 0.005);

    assert_eq!(loose_seg_counts, vec![2, 2]);
    assert_eq!(loose_line_counts, vec![2, 2]);
    assert_eq!(tight_seg_counts, vec![1, 1]);
    assert_eq!(tight_line_counts, vec![1, 1]);
}

#[test]
fn repeated_paths_match_across_z_heights() {
    let segments = vec![
        seg(v(0.0, 0.0, 5.0), v(10.0, 0.0, 5.0), true, 0),
        seg(v(0.01, 0.0, 12.0), v(10.01, 0.0, 12.0), true, 1),
        seg(v(3.0, 3.0, 0.0), v(3.0, 3.0, 8.0), true, 2),
    ];

    let (seg_counts, line_counts) = counts(&segments, 3, 0.05);

    assert_eq!(seg_counts, vec![2, 2, 1]);
    assert_eq!(line_counts, vec![2, 2, 1]);
}

#[test]
fn overlapping_collinear_paths_count_as_repeated() {
    let segments = vec![
        seg(Vec3::default(), v(10.0, 0.0, 5.0), true, 0),
        seg(v(2.0, 0.0, 8.0), v(8.0, 0.0, 8.0), true, 1),
        seg(v(4.0, 0.0, 12.0), v(6.0, 0.0, 12.0), true, 2),
        seg(v(10.0, 0.0, 2.0), Vec3::default(), true, 3),
    ];

    let (seg_counts, line_counts) = counts(&segments, 4, 0.05);

    assert_eq!(seg_counts, vec![4, 4, 4, 4]);
    assert_eq!(line_counts, vec![4, 4, 4, 4]);
}

#[test]
fn touching_paths_do_not_overlap() {
    let segments = vec![
        seg(v(0.0, 0.0, 0.0), v(5.0, 0.0, 0.0), false, 0),
        seg(v(5.0, 0.0, 0.0), v(10.0, 0.0, 0.0), false, 0),
    ];
    let (seg_counts, line_counts) = counts(&segments, 2, 0.05);
    assert_eq!(seg_counts, vec![1, 1]);
    assert_eq!(line_counts, vec![1, 1]);
}

#[test]
fn segments_behind_the_last_line_count_for_no_line() {
    let segments = vec![
        seg(v(0.0, 0.0, 0.0), v(5.0, 0.0, 0.0), false, 0),
        seg(v(0.0, 0.0, 0.0), v(5.0, 0.0, 0.0), false, 7),
    ];
    let (seg_counts, line_counts) = counts(&segments, 1, 0.05);
    assert_eq!(seg_counts, vec![2, 2]);
    assert_eq!(line_counts, vec![2]);
    assert_eq!(counts(&[], 2, 0.05), (vec![], vec![1, 1]));
}

#[test]
fn parallel_and_slanted_paths_are_apart() {
    let segments = vec![
        seg(v(0.0, 0.0, 0.0), v(10.0, 10.0, 0.0), false, 0),
        seg(v(10.0, 10.0, 0.0), v(0.0, 0.0, 0.0), false, 1),
        seg(v(0.0, 1.0, 0.0), v(10.0, 11.0, 0.0), false, 2),
        seg(v(0.0, 0.0, 0.0), v(10.0, 9.0, 0.0), false, 3),
    ];
    assert_eq!(counts(&segments, 4, 0.05).0, vec![2, 2, 1, 1]);
}

#[test]
fn odd_numbers_do_no_harm() {
    let segments = vec![
        seg(v(f32::NAN, 0.0, 0.0), v(1.0, 0.0, 0.0), false, 0),
        seg(v(f32::INFINITY, 0.0, 0.0), v(1.0, 0.0, 0.0), false, 0),
        seg(v(1e30, 0.0, 0.0), v(-1e30, 1.0, 0.0), false, 0),
        seg(v(0.0, 3e9, 0.0), v(5.0, 3e9, 0.0), false, 0),
        seg(v(0.0, 0.0, 0.0), v(0.0, 0.0, 9.0), false, 0),
    ];
    assert_eq!(counts(&segments, 1, 0.05), (vec![1, 1, 1, 1, 1], vec![1]));
}

#[test]
fn least_tolerance() {
    assert_eq!(num(normalize_pass_tolerance(f(0.0))), 0.001);
    assert_eq!(num(normalize_pass_tolerance(f(f32::NAN))), 0.001);
    assert_eq!(num(normalize_pass_tolerance(f(0.2))), 0.2);
}

#[test]
fn counts_are_current_for_their_tolerance_only() {
    let a = native();
    let mut job = JobState {
        lines: Arc::new(vec!["G0".into()]),
        line_pass_counts: Arc::new(vec![1]),
        pass_tolerance_mm: f(0.05),
        ..Default::default()
    };
    assert!(pass_counts_are_current(&a, &job, f(0.05)));
    assert!(!pass_counts_are_current(&a, &job, f(0.06)));
    job.line_pass_counts = Arc::new(vec![]);
    assert!(!pass_counts_are_current(&a, &job, f(0.05)));
}

#[test]
fn marks_are_right_after_one_pass() {
    let a = native();
    let mut job = JobState {
        lines: Arc::new(vec!["".into(), "".into()]),
        segments: Arc::new(vec![
            seg(v(0.0, 0.0, -30.0), v(0.0, 0.0, 0.0), true, 1),
            seg(v(0.0, 0.0, 0.0), v(1.0, 0.0, 0.0), true, 9),
        ]),
        version: usize::MAX,
        ..Default::default()
    };
    assert!(recompute_soft_limit_violations(&a, &mut job, &limited()));
    assert_eq!(*job.seg_violations, vec![true, false]);
    assert_eq!(*job.violated_lines, vec![false, true]);
    assert_eq!(job.version, 0);
    assert!(!recompute_soft_limit_violations(&a, &mut job, &limited()));
    assert_eq!(job.version, 0);
    let free = MachineState { connected: false, ..limited() };
    assert!(recompute_soft_limit_violations(&a, &mut job, &free));
    assert_eq!(*job.seg_violations, vec![false, false]);
}

#[test]
fn reach_of_the_machine() {
    let a = native();
    let machine = MachineState { wco: v(-10.0, 5.0, 2.0), ..limited() };
    let (bmin, bmax) = soft_limit_bounds(&a, &machine).unwrap();
    assert_eq!(bmin, v(10.0, -5.0, -22.0));
    assert_eq!(bmax, v(110.0, 95.0, -2.0));
    assert!(soft_limit_bounds(&a, &MachineState { soft_limits: false, ..limited() }).is_none());
    let flat = MachineState { max_travel: v(1.0, 1.0, 0.0), ..limited() };
    assert!(soft_limit_bounds(&a, &flat).is_none());
}

#[test]
fn points() {
    let a = native();
    assert_eq!(num(v(0.0, 0.0, 0.0).dist(&a, v(2.0, 3.0, 6.0))), 7.0);
    assert_eq!(v(0.0, 2.0, 4.0).lerp(&a, v(4.0, 2.0, 0.0), f(0.25)), v(1.0, 2.0, 3.0));
    assert!(v(0.0, 1.0, 2.0).same(v(-0.0, 1.0, 2.0)));
    assert!(!v(f32::NAN, 1.0, 2.0).same(v(f32::NAN, 1.0, 2.0)));
}

#[test]
fn orientations() {
    let places = |o: Orientation| {
        let (x, y) = o.apply_xy(f(1.0), f(2.0));
        (num(x), num(y))
    };
    assert_eq!(places(Orientation::R0), (1.0, 2.0));
    assert_eq!(places(Orientation::R90), (-2.0, 1.0));
    assert_eq!(places(Orientation::R180), (-1.0, -2.0));
    assert_eq!(places(Orientation::Transpose), (2.0, 1.0));
    assert_eq!(places(Orientation::MirrorX), (-1.0, 2.0));
    assert!(Orientation::default().is_identity());
    assert!(!Orientation::R180.is_identity());
}

#[test]
fn order_of_numbers() {
    let values = [f32::NEG_INFINITY, -2.5, -0.0, 0.0, 1e-40, 3.5, f32::INFINITY, f32::NAN];
    for x in values {
        for y in values {
            assert_eq!(f(x).lt(f(y)), x < y);
            assert_eq!(f(x).le(f(y)), x <= y);
            assert_eq!(f(x).same(f(y)), x == y);
            assert!(num(f(x).min(f(y))) == x.min(y) || (x.is_nan() && y.is_nan()));
            assert!(num(f(x).max(f(y))) == x.max(y) || (x.is_nan() && y.is_nan()));
        }
        assert_eq!(f(x).is_nan(), x.is_nan());
        assert_eq!(f(x).is_finite(), x.is_finite());
        assert_eq!(f(x).neg().bits, (-x).to_bits());
        assert_eq!(f(x).abs().bits, x.abs().to_bits());
        assert_eq!(f(x).clamp(f(-1.0), f(2.0)).bits, x.clamp(-1.0, 2.0).to_bits());
    }
}
