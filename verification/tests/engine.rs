use grbly::arith::{Calculator, Op, Scalar, Style};
use std::sync::Arc;

use grbly::grbl::engine::{
    Engine, ProbeError, ProbeReply, StreamStep, WriteFailure, CYCLE_START, FEED_HOLD, SOFT_RESET,
};
use grbly::grbl::heightmap::HeightMap;
use grbly::grbl::state::{JobState, JobStatus, MachineState, Segment, Status, Vec3};

/// The machine's own arithmetic.
type Native = Calculator<
    fn(Op, bool, u64, u64) -> u64,
    fn(bool, &str) -> u64,
    fn(Style, u64) -> String,
>;

// The bits of a number, one pattern for all that are none.
fn single_bits(r: f32) -> u64 {
    if r.is_nan() {
        0x7fc0_0000
    } else {
        r.to_bits() as u64
    }
}

// The bits of a number, one pattern for all that are none.
fn double_bits(r: f64) -> u64 {
    if r.is_nan() {
        0x7ff8_0000_0000_0000
    } else {
        r.to_bits()
    }
}

fn single(op: Op, x: u64, y: u64) -> u64 {
    let a = f32::from_bits(x as u32);
    let b = f32::from_bits(y as u32);
    let r = match op {
        Op::Add => a + b,
        Op::Sub => a - b,
        Op::Mul => a * b,
        Op::Div => a / b,
        Op::Sqrt => a.sqrt(),
        Op::Square => a.powi(2),
        Op::Floor => a.floor(),
        Op::Ceil => a.ceil(),
        Op::Round => a.round(),
        Op::Trunc => a.trunc(),
        Op::Cos => a.cos(),
        Op::Sin => a.sin(),
        Op::Atan2 => a.atan2(b),
        Op::Convert => return double_bits(a as f64),
        Op::FromSigned => (x as i64) as f32,
        Op::FromUnsigned => x as f32,
        Op::ToSigned => return (a as i64) as u64,
        Op::ToUnsigned => return a as u64,
    };
    single_bits(r)
}

fn double(op: Op, x: u64, y: u64) -> u64 {
    let a = f64::from_bits(x);
    let b = f64::from_bits(y);
    let r = match op {
        Op::Add => a + b,
        Op::Sub => a - b,
        Op::Mul => a * b,
        Op::Div => a / b,
        Op::Sqrt => a.sqrt(),
        Op::Square => a.powi(2),
        Op::Floor => a.floor(),
        Op::Ceil => a.ceil(),
        Op::Round => a.round(),
        Op::Trunc => a.trunc(),
        Op::Cos => a.cos(),
        Op::Sin => a.sin(),
        Op::Atan2 => a.atan2(b),
        Op::Convert => return single_bits(a as f32),
        Op::FromSigned => (x as i64) as f64,
        Op::FromUnsigned => x as f64,
        Op::ToSigned => return (a as i64) as u64,
        Op::ToUnsigned => return a as u64,
    };
    double_bits(r)
}

fn calc(op: Op, wide: bool, x: u64, y: u64) -> u64 {
    if wide {
        double(op, x, y)
    } else {
        single(op, x, y)
    }
}

fn read(wide: bool, text: &str) -> u64 {
    if wide {
        double_bits(text.parse::<f64>().unwrap())
    } else {
        single_bits(text.parse::<f32>().unwrap())
    }
}

fn write(style: Style, bits: u64) -> String {
    match style {
        Style::Fixed(places) => format!("{:.*}", places as usize, f32::from_bits(bits as u32)),
        Style::Plain => format!("{}", f64::from_bits(bits)),
    }
}

fn native() -> Native {
    Calculator::new(calc, read, write)
}

fn f(x: f32) -> Scalar {
    Scalar { bits: x.to_bits() }
}

fn num(x: Scalar) -> f32 {
    f32::from_bits(x.bits)
}

fn v(x: f32, y: f32, z: f32) -> Vec3 {
    Vec3 { x: f(x), y: f(y), z: f(z) }
}

fn seg(start: Vec3, end: Vec3, rapid: bool, line: usize) -> Segment {
    Segment { start, end, rapid, line }
}

fn job(lines: &[&str]) -> JobState {
    JobState {
        lines: Arc::new(lines.iter().map(|s| s.to_string()).collect()),
        ..Default::default()
    }
}

fn engine(lines: &[&str]) -> Engine {
    let mut e = Engine::new(MachineState::default(), job(lines));
    assert_eq!(e.connect("/dev/ttyUSB0", 115200, Ok(())), vec!["$$".to_string()]);
    assert!(e.ack().is_empty());
    e
}

fn steps(e: &mut Engine) -> Vec<String> {
    let plan = e.plan_job(&native());
    let mut sent = Vec::new();
    let mut i = 0;
    loop {
        match e.stream_next(&plan, i) {
            StreamStep::Next(lines) => {
                sent.extend(lines);
                i += 1;
            }
            StreamStep::Wait => sent.extend(e.ack()),
            StreamStep::Blocked(log) => {
                sent.push(log);
                return sent;
            }
            StreamStep::Stop | StreamStep::Finished => return sent,
        }
    }
}

#[test]
fn connecting() {
    let mut e = Engine::new(MachineState::default(), JobState::default());
    assert!(e.connect("COM1", 9600, Err("busy".into())).is_empty());
    assert_eq!(e.state.last_error, "failed to connect to COM1: busy");
    assert!(!e.state.connected && !e.port_open);
    assert_eq!(e.realtime(b'?'), None);
    assert_eq!(e.connect("COM1", 9600, Ok(())), vec!["$$".to_string()]);
    assert!(e.state.connected && e.port_open);
    assert_eq!((e.state.port.as_str(), e.state.baud), ("COM1", 9600));
    assert_eq!(e.state.last_error, "");
    assert_eq!(e.realtime(b'?'), Some(b'?'));
    e.disconnect();
    assert!(!e.state.connected && !e.port_open);
    assert_eq!(e.state.status, Status::Disconnected);
}

#[test]
fn sending_strips_comments() {
    let mut e = engine(&[]);
    assert_eq!(e.send(" G0 X1 ; fast"), vec!["G0 X1".to_string()]);
    assert!(e.send("(nothing)").is_empty());
    assert_eq!(e.queue.in_flight_bytes(), 6);
    assert!(e.ack().is_empty());
    assert!(e.queue.is_idle());
}

#[test]
fn failing_ports() {
    let mut e = engine(&[]);
    let lines = vec!["G0".to_string(), "G1".to_string()];
    assert_eq!(e.write_to_serial(&lines, None), vec!["> G0".to_string(), "> G1".to_string()]);
    assert!(e.state.connected);
    let failure = WriteFailure { index: 1, at_end: false, error: "gone".into() };
    let log = e.write_to_serial(&lines, Some(failure));
    assert_eq!(log[2], "!! serial write failed for `G1`: gone");
    assert_eq!(e.state.last_error, "serial write failed for `G1`: gone");
    assert!(!e.state.connected && !e.port_open);
    let failure = WriteFailure { index: 0, at_end: true, error: "gone".into() };
    let log = e.write_to_serial(&lines, Some(failure));
    assert_eq!(log[2], "!! serial newline write failed for `G0`: gone");
    assert_eq!(e.serial_error("serial reader closed"), "!! serial reader closed");
}

#[test]
fn streaming_runs_a_job_to_its_end() {
    let lines = ["G21 (mm)", "", "G0 X1", "G1 X2 F100", "; end"];
    let mut e = engine(&lines);
    assert!(e.start_job(&native()));
    assert!(!e.start_job(&native()));
    assert_eq!(steps(&mut e), vec!["G21", "G0 X1", "G1 X2 F100"]);
    assert_eq!(e.job.status, JobStatus::Complete);
    assert_eq!(e.job.current_line, 5);
    assert!(e.start_job(&native()));
    assert_eq!(e.job.current_line, 0);
}

#[test]
fn long_jobs_never_overrun_the_buffer() {
    let texts: Vec<String> = (0..60).map(|i| format!("G1 X{i} Y{i} F100")).collect();
    let lines: Vec<&str> = texts.iter().map(|s| s.as_str()).collect();
    let mut e = engine(&lines);
    e.start_job(&native());
    let plan = e.plan_job(&native());
    let mut sent = Vec::new();
    let mut i = 0;
    while e.job.status == JobStatus::Running {
        match e.stream_next(&plan, i) {
            StreamStep::Next(lines) => {
                sent.extend(lines);
                i += 1;
            }
            _ => sent.extend(e.ack()),
        }
        assert!(e.queue.in_flight_bytes() <= 128);
    }
    assert_eq!(sent, texts);
}

#[test]
fn blocked_lines_end_the_job() {
    let a = native();
    let mut e = engine(&["G0 X10", " G0 X200 "]);
    e.state.soft_limits = true;
    e.state.max_travel = v(100.0, 100.0, 20.0);
    e.job.segments = Arc::new(vec![
        seg(v(0.0, 0.0, 0.0), v(10.0, 0.0, 0.0), true, 0),
        seg(v(10.0, 0.0, 0.0), v(200.0, 0.0, 0.0), true, 1),
    ]);
    assert!(e.start_job(&a));
    assert_eq!(steps(&mut e), vec!["G0 X10", "SOFT LIMIT at line 2: G0 X200"]);
    assert_eq!(e.job.status, JobStatus::Idle);
    e.reset_job();
    assert_eq!(e.step_line(&a), (vec!["G0 X10".to_string()], None));
    assert_eq!(
        e.step_line(&a),
        (vec![], Some("SOFT LIMIT at line 2: blocked".to_string()))
    );
    assert_eq!(e.job.current_line, 1);
}

#[test]
fn pausing_and_stopping() {
    let a = native();
    let mut e = engine(&["G0 X1", "G0 X2"]);
    assert_eq!(e.pause_job(), None);
    e.start_job(&a);
    let plan = e.plan_job(&a);
    assert_eq!(e.pause_job(), Some(FEED_HOLD));
    assert_eq!(e.job.status, JobStatus::Paused);
    assert!(matches!(e.stream_next(&plan, 0), StreamStep::Wait));
    assert!(!e.start_job(&a));
    assert_eq!(e.resume_job(), Some(CYCLE_START));
    assert_eq!(e.resume_job(), None);
    assert!(matches!(e.stream_next(&plan, 0), StreamStep::Next(_)));
    assert_eq!(e.stop_job(), Some(SOFT_RESET));
    assert!(e.queue.is_idle());
    assert!(matches!(e.stream_next(&plan, 1), StreamStep::Stop));
    assert_eq!(e.feed_hold(), Some(b'!'));
    assert_eq!(e.resume(), Some(b'~'));
    assert_eq!(e.soft_reset(), Some(0x18));
}

#[test]
fn stepping_passes_over_blank_lines() {
    let a = native();
    let mut e = engine(&["; one", "", "G0 X1", "(two)", "G0 X2"]);
    assert_eq!(e.step_line(&a), (vec!["G0 X1".to_string()], None));
    assert_eq!(e.job.current_line, 3);
    assert_eq!(e.step_line(&a), (vec!["G0 X2".to_string()], None));
    assert_eq!(e.step_line(&a), (vec![], None));
    assert_eq!(e.job.current_line, 5);
    e.job.status = JobStatus::Running;
    e.job.current_line = 0;
    assert_eq!(e.step_line(&a), (vec![], None));
    assert_eq!(e.job.current_line, 0);
}

#[test]
fn stepping_with_a_map_sends_all_chunks() {
    let a = native();
    let mut e = engine(&["M3 S1", "G1 X3 F60"]);
    let z = vec![f(0.0); 4];
    e.attach_map(HeightMap::new((f(0.0), f(0.0)), (f(9.0), f(9.0)), 2, 2, z).unwrap());
    assert_eq!(e.job.version, 1);
    assert_eq!(e.step_line(&a).0, vec!["M3 S1"]);
    let (lines, _) = e.step_line(&a);
    assert_eq!(lines.len(), 3);
    assert_eq!(lines[0], "G90 G21 G1 X1.000 Y0.000 Z0.0000 F60.0");
    e.clear_map();
    assert!(e.job.heightmap.is_none());
    assert_eq!(e.job.version, 2);
}

#[test]
fn probing() {
    let a = native();
    let mut e = Engine::new(MachineState::default(), JobState::default());
    let probe = |e: &mut Engine| e.probe_at(&a, f(1.0), f(2.0), f(5.0), f(0.3), f(50.0));
    let up = vec!["G90 G21 G0 Z5.000".to_string()];
    assert_eq!(probe(&mut e), (up.clone(), Err(ProbeError::NotConnected)));
    e = engine(&[]);
    e.state.wco = v(0.0, 0.0, 1.5);
    let (lines, begun) = probe(&mut e);
    assert_eq!(lines, vec!["G90 G21 G0 X1.000 Y2.000 Z5.000", "G38.3 Z-0.300 F50.0"]);
    assert_eq!(begun, Ok(()));
    assert_eq!(probe(&mut e), (up, Err(ProbeError::Busy)));
    assert!(e.probe_in_flight && e.probe_awaited);
    assert!(e.ack().is_empty());
    let r = e.receive(&a, "[PRB:0.000,0.000,1.250:1]\r\n").unwrap();
    let reply = r.0.reply.unwrap();
    assert!(reply.ok);
    let (lines, height) = e.probe_done(&a, f(5.0), Some(reply));
    assert_eq!(lines, vec!["G90 G21 G0 Z5.000"]);
    assert_eq!(num(height.unwrap()), -0.25);
    for _ in 0..3 {
        assert!(e.ack().is_empty());
    }
    assert_eq!(probe(&mut e).1, Ok(()));
    let (lines, height) = e.probe_done(&a, f(5.0), None);
    assert_eq!(lines, vec!["G90 G21 G0 Z5.000"]);
    assert_eq!(height.unwrap_err(), ProbeError::Timeout);
    let missed = ProbeReply { prb: v(0.0, 0.0, 0.0), ok: false };
    assert_eq!(e.probe_done(&a, f(5.0), Some(missed)).1.unwrap_err(), ProbeError::NoContact);
    assert!(e.receive(&a, "[PRB:0,0,0:1]").unwrap().0.reply.is_none());
}

#[test]
fn probe_errors_speak() {
    assert_eq!(ProbeError::Busy.message(), "probe already in flight");
    assert_eq!(ProbeError::Timeout.message(), "probe timed out");
    assert_eq!(ProbeError::NoContact.message(), "probe never triggered (wire? depth?)");
    assert_eq!(ProbeError::NotConnected.message(), "machine not connected");
}

#[test]
fn reports_change_the_machine() {
    let a = native();
    let mut e = engine(&[]);
    assert!(e.receive(&a, "  \r\n").is_none());
    let (_, log) = e.receive(&a, "<Run|MPos:5,6,7|WCO:1,2,3|FS:100,200|Ov:110,100,90|Pn:P>\n").unwrap();
    assert!(log.starts_with("<Run"));
    assert_eq!(e.state.status, Status::Run);
    assert_eq!(e.state.mpos, v(5.0, 6.0, 7.0));
    assert_eq!(e.state.wpos, v(4.0, 4.0, 4.0));
    assert_eq!((e.state.feed_ovr, e.state.spindle_ovr), (110, 90));
    assert_eq!((num(e.state.feed), num(e.state.spindle)), (100.0, 200.0));
    assert!(e.state.probe_active);
    e.receive(&a, "<Idle|WPos:1,1,1|Ov:0,0,0>");
    assert_eq!(e.state.mpos, v(2.0, 3.0, 4.0));
    assert_eq!(e.state.feed_ovr, 110);
    assert!(!e.state.probe_active);
    for line in ["$20=1", "$130=150.5", "$131=110", "$132=40", "$10=3"] {
        e.receive(&a, line);
    }
    assert!(e.state.soft_limits);
    assert_eq!(e.state.max_travel, v(150.5, 110.0, 40.0));
    e.receive(&a, "$20=0");
    assert!(!e.state.soft_limits);
    e.receive(&a, "Grbl 1.1h");
    assert_eq!((e.state.status, e.state.alarm_code), (Status::Idle, 0));
}

#[test]
fn an_alarm_stops_everything() {
    let a = native();
    let mut e = engine(&["G0 X1", "G0 X2"]);
    e.start_job(&a);
    let plan = e.plan_job(&a);
    assert!(matches!(e.stream_next(&plan, 0), StreamStep::Next(_)));
    e.receive(&a, "ALARM:1");
    assert_eq!((e.state.status, e.state.alarm_code), (Status::Alarm, 1));
    assert!(e.queue.is_idle());
    assert!(matches!(e.stream_next(&plan, 1), StreamStep::Stop));
}

#[test]
fn errors_confirm_lines_too() {
    let a = native();
    let mut e = engine(&[]);
    let long = "G1 ".to_string() + &"X1".repeat(60);
    assert_eq!(e.send(&long).len(), 1);
    assert!(e.send("G0 Y1").is_empty());
    let (reaction, _) = e.receive(&a, "error:20").unwrap();
    assert_eq!(reaction.lines, vec!["G0 Y1"]);
    e.receive(&a, "ok");
    assert!(e.queue.is_idle());
}

#[test]
fn a_paused_job_with_nothing_left_is_complete() {
    let a = native();
    let mut e = engine(&[]);
    e.start_job(&a);
    let plan = e.plan_job(&a);
    e.pause_job();
    assert!(matches!(e.stream_next(&plan, 0), StreamStep::Finished));
    assert_eq!(e.job.status, JobStatus::Complete);
}
