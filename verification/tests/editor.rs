use grbly::arith::{Calculator, Op, Scalar, Style};
use std::sync::Arc;

use grbly::grbl::engine::Engine;
use grbly::grbl::state::{JobState, JobStatus, MachineState, Segment, Status, Vec3};
use grbly::ui::color::{rgba, Ink};
use grbly::ui::editor::{
    can_live_start, fmt_secs, heat_badge_color, line_has_rapid, load_job, seg_to_line,
    visible_lines, EditorFilter, EditorState, LoadOutcome, LoadReport, PassTaskResult,
};

/// The machine's own arithmetic.
type Native = Calculator<
    fn(Op, bool, u64, u64) -> u64,
    fn(bool, &str) -> u64,
    fn(Style, u64) -> String,
>;

// The bits of a number, one pattern for all that are none.
fn single_bits(r: f32) -> u64 {
    if r.is_nan() {
        0x7fc0_0000
    } else {
        r.to_bits() as u64
    }
}

// The bits of a number, one pattern for all that are none.
fn double_bits(r: f64) -> u64 {
    if r.is_nan() {
        0x7ff8_0000_0000_0000
    } else {
        r.to_bits()
    }
}

fn single(op: Op, x: u64, y: u64) -> u64 {
    let a = f32::from_bits(x as u32);
    let b = f32::from_bits(y as u32);
    let r = match op {
        Op::Add => a + b,
        Op::Sub => a - b,
        Op::Mul => a * b,
        Op::Div => a / b,
        Op::Sqrt => a.sqrt(),
        Op::Square => a.powi(2),
        Op::Floor => a.floor(),
        Op::Ceil => a.ceil(),
        Op::Round => a.round(),
        Op::Trunc => a.trunc(),
        Op::Cos => a.cos(),
        Op::Sin => a.sin(),
        Op::Atan2 => a.atan2(b),
        Op::Convert => return double_bits(a as f64),
        Op::FromSigned => (x as i64) as f32,
        Op::FromUnsigned => x as f32,
        Op::ToSigned => return (a as i64) as u64,
        Op::ToUnsigned => return a as u64,
    };
    single_bits(r)
}

fn double(op: Op, x: u64, y: u64) -> u64 {
    let a = f64::from_bits(x);
    let b = f64::from_bits(y);
    let r = match op {
        Op::Add => a + b,
        Op::Sub => a - b,
        Op::Mul => a * b,
        Op::Div => a / b,
        Op::Sqrt => a.sqrt(),
        Op::Square => a.powi(2),
        Op::Floor => a.floor(),
        Op::Ceil => a.ceil(),
        Op::Round => a.round(),
        Op::Trunc => a.trunc(),
        Op::Cos => a.cos(),
        Op::Sin => a.sin(),
        Op::Atan2 => a.atan2(b),
        Op::Convert => return single_bits(a as f32),
        Op::FromSigned => (x as i64) as f64,
        Op::FromUnsigned => x as f64,
        Op::ToSigned => return (a as i64) as u64,
        Op::ToUnsigned => return a as u64,
    };
    double_bits(r)
}

fn calc(op: Op, wide: bool, x: u64, y: u64) -> u64 {
    if wide {
        double(op, x, y)
    } else {
        single(op, x, y)
    }
}

fn read(wide: bool, text: &str) -> u64 {
    if wide {
        double_bits(text.parse::<f64>().unwrap())
    } else {
        single_bits(text.parse::<f32>().unwrap())
    }
}

fn write(style: Style, bits: u64) -> String {
    match style {
        Style::Fixed(places) => format!("{:.*}", places as usize, f32::from_bits(bits as u32)),
        Style::Plain => format!("{}", f64::from_bits(bits)),
    }
}

fn native() -> Native {
    Calculator::new(calc, read, write)
}

fn f(x: f32) -> Scalar {
    Scalar { bits: x.to_bits() }
}

fn num(x: Scalar) -> f32 {
    f32::from_bits(x.bits)
}

fn v(x: f32, y: f32, z: f32) -> Vec3 {
    Vec3 { x: f(x), y: f(y), z: f(z) }
}

fn seg(start: Vec3, end: Vec3, rapid: bool, line: usize) -> Segment {
    Segment { start, end, rapid, line }
}

fn loaded(text: &str) -> JobState {
    let mut job = JobState::default();
    load_job(&native(), &mut job, text);
    job
}

fn idle() -> MachineState {
    MachineState { connected: true, status: Status::Idle, ..Default::default() }
}

#[test]
fn times() {
    assert_eq!(fmt_secs(0), "0m 00s");
    assert_eq!(fmt_secs(59), "0m 59s");
    assert_eq!(fmt_secs(61), "1m 01s");
    assert_eq!(fmt_secs(3599), "59m 59s");
    assert_eq!(fmt_secs(3600), "1h 00m 00s");
    assert_eq!(fmt_secs(36_610), "10h 10m 10s");
}

#[test]
fn loading_a_job() {
    let mut job = JobState { version: 4, current_line: 7, ..Default::default() };
    job.status = JobStatus::Complete;
    job.z_locked = true;
    let report = load_job(&native(), &mut job, "G21\r\nG0 X3 Y4\n\nG1 Z-2");
    assert_eq!(report, LoadReport { line_count: 4, segment_count: 2 });
    assert_eq!(*job.lines, ["G21", "G0 X3 Y4", "", "G1 Z-2"]);
    assert_eq!(num(job.total_dist), 7.0);
    assert_eq!((job.bounds_min, job.bounds_max), (v(0.0, 0.0, -2.0), v(3.0, 4.0, 0.0)));
    assert_eq!(*job.seg_violations, [false, false]);
    assert_eq!(*job.violated_lines, [false; 4]);
    assert_eq!(*job.seg_pass_counts, [1, 1]);
    assert_eq!(*job.line_pass_counts, [1; 4]);
    assert_eq!((job.version, job.current_line, job.status), (5, 0, JobStatus::Idle));
    assert!(job.z_locked);
    assert_eq!(load_job(&native(), &mut job, "").line_count, 0);
}

#[test]
fn the_course_of_loading() {
    let mut s = EditorState::default();
    assert!(s.begin_load(false));
    assert_eq!(s.warning, "Loading file...");
    assert!(!s.begin_load(true));
    assert_eq!(s.warning, "A file is already loading");
    s.poll_load(LoadOutcome::Pending, 0);
    assert!(s.loading);
    s.sim_seg = 3;
    s.jump_line = 9;
    s.poll_load(LoadOutcome::Loaded(LoadReport { line_count: 12, segment_count: 3 }), 5);
    assert_eq!(s.warning, "Loaded 12 lines, 3 preview segments");
    assert_eq!((s.loading, s.sim_seg, s.jump_line, s.sim_last_tick), (false, 0, 1, 5));
    assert!(s.begin_load(true));
    assert_eq!(s.warning, "Opening file...");
    s.poll_load(LoadOutcome::Cancelled, 0);
    assert_eq!((s.loading, s.warning.as_str()), (false, ""));
    s.begin_load(true);
    s.poll_load(LoadOutcome::Failed("no file".into()), 0);
    assert_eq!(s.warning, "no file");
    s.begin_load(true);
    s.poll_load(LoadOutcome::Lost, 0);
    assert_eq!(s.warning, "File load task stopped unexpectedly");
}

#[test]
fn counting_passes_on_demand() {
    let a = native();
    let mut job = loaded("G1 X1\nX0");
    let mut s = EditorState::default();
    s.pass_tolerance_mm = f(0.0);
    let tolerance = s.request_pass_recompute(&a, &job).unwrap();
    assert_eq!(num(tolerance), 0.001);
    assert_eq!(s.warning, "Updating heatmap tolerance 0.001 mm...");
    assert!(s.request_pass_recompute(&a, &job).is_none());
    let result = |line_count: usize| PassTaskResult {
        line_count,
        tolerance_mm: f(0.001),
        seg_pass_counts: vec![2, 2],
        line_pass_counts: vec![2, 2],
    };
    assert!(!s.accept_passes(&a, &mut job, true, result(3)));
    assert!(!s.accept_passes(&a, &mut job, false, result(2)));
    assert_eq!(*job.seg_pass_counts, [1, 1]);
    let version = job.version;
    assert!(s.accept_passes(&a, &mut job, true, result(2)));
    assert_eq!(*job.seg_pass_counts, [2, 2]);
    assert_eq!(job.version, version + 1);
    assert_eq!(s.warning, "Heatmap updated at 0.001 mm");
    assert!(s.accept_passes(&a, &mut job, true, result(2)));
    assert_eq!(job.version, version + 1);
    assert!(s.request_pass_recompute(&a, &job).is_none());
    s.counting = true;
    s.lose_passes();
    assert_eq!((s.counting, s.warning.as_str()), (false, "Heatmap task stopped unexpectedly"));
    s.pass_tolerance_mm = f(0.5);
    s.show_heatmap = false;
    assert!(s.request_pass_recompute(&a, &job).is_none());
}

#[test]
fn marks_follow_the_machine() {
    let a = native();
    let mut job = loaded("G0 X10\nG0 X200");
    let mut s = EditorState::default();
    let machine = MachineState {
        soft_limits: true,
        max_travel: v(100.0, 100.0, 20.0),
        ..idle()
    };
    let shown = JobState { version: job.version, ..Default::default() };
    s.sync_validation(&a, &mut job, &shown, &machine);
    assert_eq!(*job.violated_lines, [false, true]);
    let version = job.version;
    let shown = JobState { version, ..Default::default() };
    job.violated_lines = Arc::new(vec![]);
    s.sync_validation(&a, &mut job, &shown, &machine);
    assert!(job.violated_lines.is_empty());
    s.sync_validation(&a, &mut job, &shown, &MachineState { wco: v(1.0, 0.0, 0.0), ..machine });
    assert_eq!(job.violated_lines.len(), 2);
    assert_eq!(job.version, version + 1);
}

#[test]
fn marks_wait_until_the_frame_shows_the_job() {
    let a = native();
    let mut job = loaded("G0 X10
G0 X200");
    let mut s = EditorState::default();
    let machine = MachineState {
        soft_limits: true,
        max_travel: v(100.0, 100.0, 20.0),
        ..idle()
    };
    let shown = JobState { version: job.version, ..Default::default() };
    s.sync_validation(&a, &mut job, &shown, &machine);
    let shown = JobState { version: job.version, ..Default::default() };
    job.violated_lines = Arc::new(vec![]);
    job.version += 1;
    s.sync_validation(&a, &mut job, &shown, &machine);
    assert!(job.violated_lines.is_empty());
    let shown = JobState { version: job.version, ..Default::default() };
    s.sync_validation(&a, &mut job, &shown, &machine);
    assert_eq!(*job.violated_lines, [false, true]);
}

#[test]
fn the_timer_of_a_job() {
    let mut s = EditorState::default();
    s.update_live_timer(JobStatus::Running, 10);
    s.update_live_timer(JobStatus::Running, 20);
    assert_eq!(s.live_started_at, Some(10));
    s.update_live_timer(JobStatus::Paused, 30);
    assert_eq!(s.live_started_at, Some(10));
    s.update_live_timer(JobStatus::Running, 40);
    assert_eq!(s.live_started_at, Some(40));
    s.update_live_timer(JobStatus::Complete, 50);
    assert_eq!(s.live_started_at, Some(40));
    s.update_live_timer(JobStatus::Idle, 60);
    assert_eq!(s.live_started_at, None);
}

#[test]
fn simulating_a_job() {
    let a = native();
    let job = loaded("G0 X10\nG1 Y5");
    let mut s = EditorState::default();
    s.advance_simulation(&a, &job, f(1.0));
    assert!(!s.simulating);
    assert_eq!(s.tick(5), None);
    s.toggle_play(100);
    assert!(s.simulating && s.sim_playing);
    assert_eq!(s.tick(130), Some(30));
    s.sim_feed = f(4.0);
    s.advance_simulation(&a, &job, f(1.0));
    assert_eq!((s.sim_pos, s.sim_seg, s.sim_line), (v(4.0, 0.0, 0.0), 0, 0));
    s.advance_simulation(&a, &job, f(2.0));
    assert_eq!((s.sim_pos, s.sim_seg, s.sim_line), (v(10.0, 2.0, 0.0), 1, 1));
    s.toggle_play(0);
    assert!(s.simulating && !s.sim_playing);
    s.advance_simulation(&a, &job, f(2.0));
    assert_eq!(s.sim_pos, v(10.0, 2.0, 0.0));
    s.toggle_play(0);
    s.advance_simulation(&a, &job, f(20.0));
    assert_eq!((s.sim_pos, s.sim_line, s.sim_playing), (v(10.0, 5.0, 0.0), 2, false));
    assert_eq!((job.status, job.current_line), (JobStatus::Idle, 0));
    s.reset_simulation(7);
    assert_eq!((s.simulating, s.sim_seg, s.sim_last_tick), (false, 0, 7));
}

#[test]
fn simulations_stop_at_limits() {
    let a = native();
    let mut job = loaded("G0 X10\nG1 Z-5");
    job.seg_violations = Arc::new(vec![false, true]);
    let mut s = EditorState::default();
    s.z_locked = true;
    s.toggle_play(0);
    s.advance_simulation(&a, &job, f(100.0));
    assert_eq!(s.warning, "SIM SOFT LIMIT at line 2");
    assert!(!s.sim_playing && s.simulating);
    assert_eq!((s.sim_seg, s.sim_pos), (1, v(10.0, 0.0, 0.0)));
}

#[test]
fn stepping_a_simulation() {
    let job = loaded("G0 X10\nG3 X0 Y10 I-10 Z-4\nG1 X1");
    let mut s = EditorState::default();
    s.step_simulation(&job, 0);
    assert_eq!((s.sim_seg, s.sim_line, s.sim_pos), (1, 1, v(10.0, 0.0, 0.0)));
    s.z_locked = true;
    s.step_simulation(&job, 0);
    assert_eq!((s.sim_seg, s.sim_line), (10, 2));
    assert_eq!(s.sim_pos.z, f(0.0));
    s.step_simulation(&job, 0);
    assert_eq!((s.sim_seg, s.sim_line), (11, 3));
    s.step_simulation(&job, 0);
    assert_eq!((s.sim_seg, s.sim_line), (11, 3));
    assert!(s.simulating && !s.sim_playing);
}

#[test]
fn starting_takes_two_clicks() {
    let a = native();
    let mut e = Engine::new(idle(), loaded("G0 X1"));
    let mut s = EditorState::default();
    let still = idle();
    let turning = MachineState { spindle: f(100.0), ..idle() };
    assert!(can_live_start(&e.state, &e.job, true));
    assert!(!can_live_start(&e.state, &e.job, false));
    e.state.spindle = f(100.0);
    assert!(!s.live_start(&a, &mut e, &still, 0));
    assert_eq!(
        s.warning,
        "START ARMED - spindle speed is 0; click START ARMED to run anyway"
    );
    assert_eq!(s.toolbar(&e.state, &e.job, 1).start_label, "START ARMED");
    assert_eq!(e.job.status, JobStatus::Idle);
    assert!(!s.live_start(&a, &mut e, &still, 3_000_000_000));
    assert!(s.live_start(&a, &mut e, &still, 5_999_999_999));
    assert_eq!((e.job.status, s.warning.as_str()), (JobStatus::Running, ""));
    assert!(!can_live_start(&e.state, &e.job, true));
    s.live_reset(&mut e);
    e.state.spindle = f(0.0);
    assert!(!s.live_start(&a, &mut e, &turning, 0));
    assert_eq!(s.warning, "START ARMED - click START ARMED to stream to machine");
    s.live_reset(&mut e);
    assert_eq!(s.live_start_confirm, None);
}

#[test]
fn the_toolbar() {
    let job = loaded("G0 X1");
    let mut s = EditorState::default();
    let t = s.toolbar(&idle(), &job, 0);
    assert_eq!((t.play_label, t.z_label, t.start_label), ("PLAY", "ZL", "START"));
    assert!(t.can_open && t.can_play && t.can_step && t.can_start && t.can_reset_job);
    assert!(!t.can_reset_sim && !t.playing);
    s.simulating = true;
    s.z_locked = true;
    let running = JobState { status: JobStatus::Running, ..Default::default() };
    let t = s.toolbar(&idle(), &running, 0);
    assert_eq!((t.play_label, t.z_label), ("RESUME", "ZL ON"));
    assert!(!t.can_play && !t.can_step && !t.can_start && !t.can_reset_job && t.can_reset_sim);
}

#[test]
fn locking_the_height() {
    let mut job = JobState::default();
    let mut s = EditorState::default();
    s.toggle_z_lock(&mut job);
    assert!(s.z_locked && job.z_locked);
    assert_eq!(job.version, 1);
    s.toggle_z_lock(&mut job);
    assert!(!s.z_locked && !job.z_locked);
}

#[test]
fn progress_of_a_job() {
    let a = native();
    let mut job = loaded("G0 X100\n\n\nG0 X0");
    job.current_line = 1;
    let mut s = EditorState::default();
    s.sim_line = 9;
    let p = s.progress(&a, &job);
    assert_eq!((p.live_line, p.total, num(p.live_part)), (1, 4, 0.25));
    assert_eq!(p.live_text, "25%  200.0 mm");
    assert_eq!((p.sim_line, num(p.sim_part), p.eta_secs), (4, 1.0, 10));
    assert_eq!(s.progress(&a, &JobState::default()).total, 1);
}

#[test]
fn jumping_to_lines() {
    let mut s = EditorState::default();
    s.jump_line = 0;
    s.clamp_jump(5);
    assert_eq!(s.jump_line, 1);
    s.jump_line = 9;
    s.jump(5);
    assert_eq!(s.manual_focus_line, Some(4));
    s.clamp_jump(5);
    assert_eq!(s.jump_line, 5);
    s.jump_line = 3;
    s.jump(5);
    assert_eq!(s.manual_focus_line, Some(2));
    s.click_row(0);
    assert_eq!((s.manual_focus_line, s.jump_line), (Some(0), 1));
}

#[test]
fn filters() {
    let mut job = loaded("G0 X1\nG1 Z-1\nG1 X5 (Z)\nG0 Z1");
    job.violated_lines = Arc::new(vec![false, false, true]);
    job.line_pass_counts = Arc::new(vec![1, 3, 2, 1]);
    assert_eq!(visible_lines(EditorFilter::All, &job), [0, 1, 2, 3]);
    assert_eq!(visible_lines(EditorFilter::Z, &job), [1, 3]);
    assert_eq!(visible_lines(EditorFilter::Limits, &job), [2]);
    assert_eq!(visible_lines(EditorFilter::Heat, &job), [1, 2]);
    assert_eq!(visible_lines(EditorFilter::Rapids, &job), [0, 3]);
    assert!(line_has_rapid(&job, 0) && !line_has_rapid(&job, 1));
    let mut s = EditorState::default();
    job.current_line = 2;
    assert_eq!(s.header(&job, 0), "4 lines  [2]");
    for (filter, text) in [
        (EditorFilter::Z, "2 Z-lines  [2]"),
        (EditorFilter::Limits, "2 limit lines  [2]"),
        (EditorFilter::Heat, "2 repeated lines  [2]"),
        (EditorFilter::Rapids, "2 rapid lines  [2]"),
    ] {
        s.filter = filter;
        assert_eq!(s.header(&job, 2), text);
    }
    s.simulating = true;
    s.sim_line = 1;
    assert_eq!(s.active_line(&job), 1);
}

#[test]
fn rows_of_the_list() {
    let mut job = loaded("G0 X1\nG1 Z-1\nG1 X5");
    job.violated_lines = Arc::new(vec![true, true, true]);
    job.line_pass_counts = Arc::new(vec![1, 3]);
    let mut s = EditorState::default();
    s.manual_focus_line = Some(2);
    assert!(!s.row(&job, 0).current);
    job.current_line = 1;
    let row = s.row(&job, 1);
    assert!(row.current && !row.focused && row.z && !row.rapid);
    assert_eq!((row.badge, row.ink), (Some(3), Ink::Amber));
    let row = s.row(&job, 0);
    assert!(row.rapid && !row.z);
    assert_eq!((row.badge, row.ink), (None, Ink::Red));
    assert!(s.row(&job, 2).focused);
    s.show_heatmap = false;
    assert_eq!(s.row(&job, 1).badge, None);
    job.violated_lines = Arc::new(vec![]);
    assert_eq!(s.row(&job, 2).ink, Ink::Code);
}

#[test]
fn windows_of_the_list() {
    let mut job = loaded(&"G0\n".repeat(500));
    let mut s = EditorState::default();
    assert_eq!(s.window(&job), (0, 90));
    job.current_line = 200;
    assert_eq!(s.window(&job), (110, 290));
    s.manual_focus_line = Some(499);
    assert_eq!(s.window(&job), (409, 500));
    assert_eq!(s.window(&loaded("G0")), (409, 1));
}

#[test]
fn lines_of_segments() {
    let path = [seg(v(0.0, 0.0, 0.0), v(1.0, 0.0, 0.0), true, 4)];
    assert_eq!(seg_to_line(&path, 0), 4);
    assert_eq!(seg_to_line(&path, 1), 5);
    assert_eq!(seg_to_line(&[], 1), 0);
}

#[test]
fn colours_of_badges() {
    assert_eq!(heat_badge_color(1), Ink::Dim.color());
    assert_eq!(heat_badge_color(2), rgba(0xff, 0xdd, 0x33, 0xff));
    assert_eq!(heat_badge_color(3), rgba(0xff, 0x99, 0x22, 0xff));
    assert_eq!(heat_badge_color(4), rgba(0xff, 0x55, 0x22, 0xff));
    assert_eq!(heat_badge_color(99), rgba(0xff, 0x22, 0x66, 0xff));
}
