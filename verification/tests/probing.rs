use grbly::arith::{Calculator, Op, Scalar, Style};
use std::collections::HashSet;
use std::sync::Arc;

use grbly::grbl::engine::ProbeError;
use grbly::grbl::heightmap::HeightMap;
use grbly::grbl::state::{JobState, JobStatus, MachineState, Status, Vec3};
use grbly::ui::color::{rgba, Ink};
use grbly::ui::probe::{
    bbox_valid, build_probe_preview, fill_skipped, off_origin, pin_indicator, AutoStep, Completion,
    ProbeMode, ProbePhase, ProbeState,
};

/// The machine's own arithmetic.
type Native = Calculator<
    fn(Op, bool, u64, u64) -> u64,
    fn(bool, &str) -> u64,
    fn(Style, u64) -> String,
>;

// The bits of a number, one pattern for all that are none.
fn single_bits(r: f32) -> u64 {
    if r.is_nan() {
        0x7fc0_0000
    } else {
        r.to_bits() as u64
    }
}

// The bits of a number, one pattern for all that are none.
fn double_bits(r: f64) -> u64 {
    if r.is_nan() {
        0x7ff8_0000_0000_0000
    } else {
        r.to_bits()
    }
}

fn single(op: Op, x: u64, y: u64) -> u64 {
    let a = f32::from_bits(x as u32);
    let b = f32::from_bits(y as u32);
    let r = match op {
        Op::Add => a + b,
        Op::Sub => a - b,
        Op::Mul => a * b,
        Op::Div => a / b,
        Op::Sqrt => a.sqrt(),
        Op::Square => a.powi(2),
        Op::Floor => a.floor(),
        Op::Ceil => a.ceil(),
        Op::Round => a.round(),
        Op::Trunc => a.trunc(),
        Op::Cos => a.cos(),
        Op::Sin => a.sin(),
        Op::Atan2 => a.atan2(b),
        Op::Convert => return double_bits(a as f64),
        Op::FromSigned => (x as i64) as f32,
        Op::FromUnsigned => x as f32,
        Op::ToSigned => return (a as i64) as u64,
        Op::ToUnsigned => return a as u64,
    };
    single_bits(r)
}

fn double(op: Op, x: u64, y: u64) -> u64 {
    let a = f64::from_bits(x);
    let b = f64::from_bits(y);
    let r = match op {
        Op::Add => a + b,
        Op::Sub => a - b,
        Op::Mul => a * b,
        Op::Div => a / b,
        Op::Sqrt => a.sqrt(),
        Op::Square => a.powi(2),
        Op::Floor => a.floor(),
        Op::Ceil => a.ceil(),
        Op::Round => a.round(),
        Op::Trunc => a.trunc(),
        Op::Cos => a.cos(),
        Op::Sin => a.sin(),
        Op::Atan2 => a.atan2(b),
        Op::Convert => return single_bits(a as f32),
        Op::FromSigned => (x as i64) as f64,
        Op::FromUnsigned => x as f64,
        Op::ToSigned => return (a as i64) as u64,
        Op::ToUnsigned => return a as u64,
    };
    double_bits(r)
}

fn calc(op: Op, wide: bool, x: u64, y: u64) -> u64 {
    if wide {
        double(op, x, y)
    } else {
        single(op, x, y)
    }
}

fn read(wide: bool, text: &str) -> u64 {
    if wide {
        double_bits(text.parse::<f64>().unwrap())
    } else {
        single_bits(text.parse::<f32>().unwrap())
    }
}

fn write(style: Style, bits: u64) -> String {
    match style {
        Style::Fixed(places) => format!("{:.*}", places as usize, f32::from_bits(bits as u32)),
        Style::Plain => format!("{}", f64::from_bits(bits)),
    }
}

fn native() -> Native {
    Calculator::new(calc, read, write)
}

fn f(x: f32) -> Scalar {
    Scalar { bits: x.to_bits() }
}

fn num(x: Scalar) -> f32 {
    f32::from_bits(x.bits)
}

fn v(x: f32, y: f32, z: f32) -> Vec3 {
    Vec3 { x: f(x), y: f(y), z: f(z) }
}

fn job() -> JobState {
    JobState { bounds_min: v(0.0, 0.0, 0.0), bounds_max: v(4.0, 2.0, 0.0), ..Default::default() }
}

fn small() -> ProbeState {
    let mut s = ProbeState::default();
    s.set_grid(3, 2);
    s
}

fn at_z(z: f32) -> MachineState {
    MachineState {
        connected: true,
        status: Status::Idle,
        wpos: v(0.0, 0.0, z),
        ..Default::default()
    }
}

#[test]
fn the_pin() {
    assert_eq!(pin_indicator(&MachineState::default()), (Ink::Dim, "PROBE PIN: ---"));
    assert_eq!(pin_indicator(&at_z(0.0)), (Ink::Amber, "PROBE PIN: OPEN"));
    let closed = MachineState { probe_active: true, ..at_z(0.0) };
    assert_eq!(pin_indicator(&closed), (Ink::Green, "PROBE PIN: CONNECTED"));
}

#[test]
fn conditions() {
    let mut s = small();
    assert!(bbox_valid(&job()) && !bbox_valid(&JobState::default()));
    assert!(s.can_start(&at_z(0.0), &job()));
    assert!(!s.can_start(&at_z(0.0), &JobState::default()));
    assert!(!s.can_start(&at_z(0.0), &JobState { status: JobStatus::Paused, ..job() }));
    let jogging = MachineState { status: Status::Jog, ..at_z(0.0) };
    assert!(s.can_probe(&jogging) && !s.can_start(&jogging, &job()));
    s.phase = ProbePhase::Single;
    assert!(!s.can_probe(&jogging) && !s.can_start(&at_z(0.0), &job()));
    assert!(off_origin(&at_z(0.2)) && off_origin(&at_z(-0.2)) && !off_origin(&at_z(0.1)));
    assert!(!off_origin(&MachineState { connected: false, ..at_z(9.0) }));
}

#[test]
fn skipping_points() {
    let mut s = small();
    assert_eq!((s.grid_total(), s.active_count()), (6, 6));
    s.toggle_skip(0);
    s.toggle_skip(1);
    s.toggle_skip(5);
    s.toggle_skip(5);
    assert_eq!(s.active_count(), 4);
    assert_eq!(s.next_unskipped(0), Some(2));
    assert_eq!(s.next_unskipped(6), None);
    s.phase = ProbePhase::Grid;
    s.toggle_skip(2);
    assert_eq!(s.next_unskipped(0), Some(2));
    s.current_index = 3;
    let (samples, current, skipped) = s.samples_snapshot();
    assert!(samples.is_empty());
    assert_eq!(current, Some(3));
    assert_eq!(skipped, [true, true, false, false, false, false]);
    s.set_grid(2, 2);
    assert!(s.skipped.is_empty());
}

#[test]
fn filling_gaps() {
    let a = native();
    let none: HashSet<usize> = HashSet::new();
    let first: HashSet<usize> = [0].into_iter().collect();
    let fill = |samples: Vec<Option<f32>>, skipped: &HashSet<usize>| {
        let samples: Vec<Option<Scalar>> = samples.into_iter().map(|s| s.map(f)).collect();
        fill_skipped(&a, &samples, skipped)
            .map(|z| z.into_iter().map(num).collect::<Vec<f32>>())
    };
    assert_eq!(fill(vec![Some(1.0), Some(3.0)], &none), Some(vec![1.0, 3.0]));
    assert_eq!(fill(vec![None, Some(1.0), Some(3.0)], &first), Some(vec![2.0, 1.0, 3.0]));
    assert_eq!(fill(vec![Some(9.0), Some(1.0), Some(3.0)], &first), Some(vec![9.0, 1.0, 3.0]));
    assert_eq!(fill(vec![None, Some(1.0)], &none), None);
    assert_eq!(fill(vec![None], &first), None);
    assert_eq!(fill(vec![], &none), None);
}

#[test]
fn probing_by_hand() {
    let a = native();
    let mut s = small();
    s.mode = ProbeMode::Manual;
    s.toggle_skip(0);
    s.toggle_skip(2);
    assert_eq!(
        s.start_grid(&a, &job()),
        Some("G90 G21 G0 X2.000 Y0.000 Z1.000".to_string())
    );
    assert_eq!(s.progress_text(&a), "probing 2/6 at (2.00, 0.00)");
    assert_eq!(
        s.advance_manual(&a, &at_z(-0.5)),
        ["G90 G21 G0 Z1.000", "G90 G21 G0 X0.000 Y2.000"]
    );
    s.advance_manual(&a, &at_z(-0.25));
    s.advance_manual(&a, &at_z(-0.25));
    assert!(!s.finished);
    assert_eq!(s.advance_manual(&a, &at_z(0.0)), ["G90 G21 G0 Z1.000"]);
    assert!(s.finished);
    match s.poll_completion(&a) {
        Completion::Built(map) => {
            let z: Vec<f32> = map.z.iter().map(|z| num(*z)).collect();
            assert_eq!(z, [-0.25, -0.5, -0.25, -0.25, -0.25, 0.0]);
            assert_eq!((map.grid_x, map.grid_y), (3, 2));
        }
        _ => panic!("no map"),
    }
    assert_eq!((s.phase, s.finished), (ProbePhase::Idle, false));
    assert!(matches!(s.poll_completion(&a), Completion::Nothing));
}

#[test]
fn giving_up() {
    let a = native();
    let mut s = small();
    s.mode = ProbeMode::Manual;
    s.start_grid(&a, &job());
    assert_eq!(s.abort_manual(&a), "G90 G21 G0 Z1.000");
    assert!(s.cancel && s.finished);
    assert!(matches!(s.poll_completion(&a), Completion::Nothing));
    for i in 0..6 {
        s.toggle_skip(i);
    }
    assert_eq!(s.start_grid(&a, &job()), None);
    assert_eq!(s.error, "all points skipped");
    assert!(matches!(s.poll_completion(&a), Completion::Nothing));
}

#[test]
fn probing_alone() {
    let a = native();
    let mut s = small();
    s.toggle_skip(1);
    assert_eq!(s.start_grid(&a, &job()), None);
    let plan = s.auto_plan();
    let mut from = 0;
    let mut seen = Vec::new();
    while let AutoStep::Probe(i, x, y) = s.auto_next(&a, &plan, from) {
        seen.push((i, num(x), num(y)));
        assert!(s.auto_result(&plan, i, Ok(f(1.0))));
        from = i + 1;
    }
    assert_eq!(
        seen,
        [(0, 0.0, 0.0), (2, 4.0, 0.0), (3, 0.0, 2.0), (4, 2.0, 2.0), (5, 4.0, 2.0)]
    );
    assert!(s.finished);
    assert!(matches!(s.poll_completion(&a), Completion::Built(_)));
    s.start_grid(&a, &job());
    assert!(!s.auto_result(&plan, 2, Err(ProbeError::NoContact)));
    assert_eq!(
        s.error,
        "probe failed at 3/6: probe never triggered (wire? depth?)"
    );
    assert!(s.finished);
    s.start_grid(&a, &job());
    s.cancel = true;
    assert!(matches!(s.auto_next(&a, &plan, 1), AutoStep::Cancelled));
    assert_eq!(s.error, "cancelled");
    assert!(matches!(s.auto_next(&a, &plan, 6), AutoStep::Done));
}

#[test]
fn a_probing_keeps_to_its_plan() {
    let a = native();
    let mut s = small();
    s.toggle_skip(1);
    s.start_grid(&a, &job());
    let plan = s.auto_plan();
    s.set_grid(9, 9);
    s.safe_z = f(7.0);
    s.max_depth = f(5.0);
    s.probe_feed = f(500.0);
    assert_eq!((num(plan.safe_z), num(plan.max_depth), num(plan.feed)), (1.0, 0.3, 50.0));
    assert_eq!(plan.skipped, [false, true, false, false, false, false]);
    match s.auto_next(&a, &plan, 1) {
        AutoStep::Probe(i, x, y) => assert_eq!((i, num(x), num(y)), (2, 4.0, 0.0)),
        _ => panic!("no point"),
    }
    assert!(!s.auto_result(&plan, 2, Err(ProbeError::Timeout)));
    assert_eq!(s.error, "probe failed at 3/6: probe timed out");
    assert!(matches!(s.auto_next(&a, &plan, 6), AutoStep::Done));
}

#[test]
fn steps_of_jogging_by_hand() {
    let a = native();
    let mut s = small();
    assert!(s.manual_step_selected(&a, f(0.1)));
    assert!(!s.manual_step_selected(&a, f(0.01)));
    s.manual_jog_step = f(0.10005);
    assert!(s.manual_step_selected(&a, f(0.1)));
    s.manual_jog_step = f(0.1002);
    assert!(!s.manual_step_selected(&a, f(0.1)));
}

#[test]
fn areas_without_extent_make_no_map() {
    let a = native();
    let mut s = small();
    s.start_grid(&a, &JobState::default());
    let plan = s.auto_plan();
    for i in 0..6 {
        s.auto_result(&plan, i, Ok(f(0.0)));
    }
    s.auto_next(&a, &plan, 6);
    match s.poll_completion(&a) {
        Completion::Refused(e) => {
            assert_eq!(e, "bbox_max must be strictly greater than bbox_min")
        }
        _ => panic!("made a map"),
    }
}

#[test]
fn single_points() {
    let a = native();
    let mut s = small();
    assert_eq!(s.zero_here(&a, &at_z(2.0)), None);
    s.begin_single();
    assert_eq!((s.phase, s.single_msg.as_str()), (ProbePhase::Single, "probing..."));
    assert_eq!(s.end_single(&a, Ok(f(-0.25)), false, f(1.0)), None);
    assert_eq!(s.single_msg, "probed Z = -0.250 mm");
    assert!(matches!(s.poll_completion(&a), Completion::Nothing));
    assert_eq!(s.phase, ProbePhase::Idle);
    assert_eq!(s.zero_here(&a, &at_z(1.0)), Some("G10 L20 P1 Z1.2500".to_string()));
    assert_eq!(s.single_msg, "Z0 set at probed surface (was Z=-0.250)");
    assert_eq!(s.single_z, None);
    s.begin_single();
    let command = s.end_single(&a, Ok(f(0.5)), true, f(1.0));
    assert_eq!(command, Some("G10 L20 P1 Z0.5000".to_string()));
    assert_eq!(s.single_msg, "zeroed Z at probed surface (was 0.500)");
    assert_eq!(s.end_single(&a, Err(ProbeError::Timeout), true, f(1.0)), None);
    assert_eq!((s.single_z, s.single_msg.as_str()), (None, "probe failed: probe timed out"));
}

#[test]
fn cells_of_the_grid() {
    let a = native();
    let mut s = small();
    s.toggle_skip(0);
    s.start_grid(&a, &job());
    let plan = s.auto_plan();
    s.auto_result(&plan, 1, Ok(f(0.0)));
    s.current_index = 2;
    assert!(s.cell(0).crossed && !s.cell(1).crossed);
    assert_eq!(s.cell(0).fill, rgba(0x66, 0x11, 0x11, 0xff));
    assert_eq!(s.cell(1).fill, rgba(0x11, 0x44, 0x22, 0xff));
    assert_eq!(s.cell(2).fill, rgba(0x00, 0x33, 0x55, 0xff));
    assert_eq!(s.cell(3).fill, rgba(0x33, 0x2a, 0x00, 0xff));
}

#[test]
fn previews() {
    let a = native();
    let mut s = small();
    assert!(build_probe_preview(&JobState::default(), &s).is_none());
    let p = build_probe_preview(&job(), &s).unwrap();
    assert!(p.samples.is_none() && p.current_index.is_none());
    assert_eq!((p.grid_x, p.grid_y, p.skipped.len()), (3, 2, 6));
    s.start_grid(&a, &job());
    let p = build_probe_preview(&job(), &s).unwrap();
    assert_eq!(p.samples.unwrap().len(), 6);
    assert_eq!(p.current_index, Some(0));
    let z = vec![f(1.0), f(2.0), f(3.0), f(4.0)];
    let map = HeightMap::new((f(0.0), f(0.0)), (f(9.0), f(9.0)), 2, 2, z).unwrap();
    let mapped = JobState { heightmap: Some(Arc::new(map)), ..job() };
    let p = build_probe_preview(&mapped, &s).unwrap();
    assert_eq!(p.samples.unwrap()[3], Some(f(4.0)));
    assert_eq!((p.grid_x, p.current_index, p.skipped), (2, None, vec![false; 4]));
}
