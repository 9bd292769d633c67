use grbly::arith::{Calculator, Op, Scalar, Style};
use std::sync::Arc;

use grbly::grbl::engine::{Engine, CYCLE_START, FEED_HOLD, SOFT_RESET};
use grbly::grbl::serial::{list_ports, Os};
use grbly::grbl::state::{JobState, JobStatus, MachineState, Status, Vec3};
use grbly::ui::app::{handle_key, Key, KeyAction, UiState};
use grbly::ui::camera::{Button, CameraController, DragMode, Pointer, Reaction};
use grbly::ui::color::Ink;
use grbly::ui::controls::{
    action_commands, action_enabled, can_jog, jog_text, offers_resume, override_byte,
    override_shown, press_job, soft_limits_enabled, spindle_enabled, status_display, step_selected,
    under_way, ConfirmAction, ControlsState, JobButton, JogAxis, MachineAction, Override,
};

/// The machine's own arithmetic.
type Native = Calculator<
    fn(Op, bool, u64, u64) -> u64,
    fn(bool, &str) -> u64,
    fn(Style, u64) -> String,
>;

// The bits of a number, one pattern for all that are none.
fn single_bits(r: f32) -> u64 {
    if r.is_nan() {
        0x7fc0_0000
    } else {
        r.to_bits() as u64
    }
}

// The bits of a number, one pattern for all that are none.
fn double_bits(r: f64) -> u64 {
    if r.is_nan() {
        0x7ff8_0000_0000_0000
    } else {
        r.to_bits()
    }
}

fn single(op: Op, x: u64, y: u64) -> u64 {
    let a = f32::from_bits(x as u32);
    let b = f32::from_bits(y as u32);
    let r = match op {
        Op::Add => a + b,
        Op::Sub => a - b,
        Op::Mul => a * b,
        Op::Div => a / b,
        Op::Sqrt => a.sqrt(),
        Op::Square => a.powi(2),
        Op::Floor => a.floor(),
        Op::Ceil => a.ceil(),
        Op::Round => a.round(),
        Op::Trunc => a.trunc(),
        Op::Cos => a.cos(),
        Op::Sin => a.sin(),
        Op::Atan2 => a.atan2(b),
        Op::Convert => return double_bits(a as f64),
        Op::FromSigned => (x as i64) as f32,
        Op::FromUnsigned => x as f32,
        Op::ToSigned => return (a as i64) as u64,
        Op::ToUnsigned => return a as u64,
    };
    single_bits(r)
}

fn double(op: Op, x: u64, y: u64) -> u64 {
    let a = f64::from_bits(x);
    let b = f64::from_bits(y);
    let r = match op {
        Op::Add => a + b,
        Op::Sub => a - b,
        Op::Mul => a * b,
        Op::Div => a / b,
        Op::Sqrt => a.sqrt(),
        Op::Square => a.powi(2),
        Op::Floor => a.floor(),
        Op::Ceil => a.ceil(),
        Op::Round => a.round(),
        Op::Trunc => a.trunc(),
        Op::Cos => a.cos(),
        Op::Sin => a.sin(),
        Op::Atan2 => a.atan2(b),
        Op::Convert => return single_bits(a as f32),
        Op::FromSigned => (x as i64) as f64,
        Op::FromUnsigned => x as f64,
        Op::ToSigned => return (a as i64) as u64,
        Op::ToUnsigned => return a as u64,
    };
    double_bits(r)
}

fn calc(op: Op, wide: bool, x: u64, y: u64) -> u64 {
    if wide {
        double(op, x, y)
    } else {
        single(op, x, y)
    }
}

fn read(wide: bool, text: &str) -> u64 {
    if wide {
        double_bits(text.parse::<f64>().unwrap())
    } else {
        single_bits(text.parse::<f32>().unwrap())
    }
}

fn write(style: Style, bits: u64) -> String {
    match style {
        Style::Fixed(places) => format!("{:.*}", places as usize, f32::from_bits(bits as u32)),
        Style::Plain => format!("{}", f64::from_bits(bits)),
    }
}

fn native() -> Native {
    Calculator::new(calc, read, write)
}

fn f(x: f32) -> Scalar {
    Scalar { bits: x.to_bits() }
}

fn v(x: f32, y: f32, z: f32) -> Vec3 {
    Vec3 { x: f(x), y: f(y), z: f(z) }
}

fn machine(status: Status) -> MachineState {
    MachineState { connected: true, status, ..Default::default() }
}

#[test]
fn jogs() {
    let a = native();
    assert!(can_jog(&machine(Status::Idle)) && can_jog(&machine(Status::Jog)));
    assert!(!can_jog(&machine(Status::Run)));
    assert!(!can_jog(&MachineState { connected: false, ..machine(Status::Idle) }));
    assert_eq!(jog_text(&a, JogAxis::XMinus, f(10.0), 3), "$J=G91 G21 X-10.000 F1000");
    assert_eq!(jog_text(&a, JogAxis::XPlus, f(0.1), 3), "$J=G91 G21 X0.100 F1000");
    assert_eq!(jog_text(&a, JogAxis::YPlus, f(1.0), 1), "$J=G91 G21 Y1.0 F1000");
    assert_eq!(jog_text(&a, JogAxis::YMinus, f(1.0), 1), "$J=G91 G21 Y-1.0 F1000");
    assert_eq!(jog_text(&a, JogAxis::ZPlus, f(0.01), 4), "$J=G91 G21 Z0.0100 F500");
    assert_eq!(jog_text(&a, JogAxis::ZMinus, f(1.0), 3), "$J=G91 G21 Z-1.000 F500");
    assert!(step_selected(&a, f(1.0), f(1.005)));
    assert!(!step_selected(&a, f(1.0), f(0.1)));
}

#[test]
fn statuses() {
    assert_eq!(status_display(Status::Idle), (Ink::Green, "IDLE"));
    assert_eq!(status_display(Status::Run), (Ink::Blue, "RUN"));
    assert_eq!(status_display(Status::Hold), (Ink::Amber, "HOLD"));
    assert_eq!(status_display(Status::Alarm), (Ink::Red, "ALARM"));
    assert_eq!(status_display(Status::Home), (Ink::Amber, "HOME"));
    assert_eq!(status_display(Status::Check), (Ink::Blue, "CHECK"));
    assert_eq!(status_display(Status::Jog), (Ink::Blue, "JOG"));
    assert_eq!(status_display(Status::Door), (Ink::Red, "DOOR"));
    assert_eq!(status_display(Status::Sleep), (Ink::Dim, "SLEEP"));
    assert_eq!(status_display(Status::Disconnected), (Ink::Dim, "---"));
    assert!(offers_resume(&machine(Status::Hold)) && offers_resume(&machine(Status::Door)));
    assert!(!offers_resume(&machine(Status::Run)));
}

#[test]
fn overrides() {
    assert_eq!((override_shown(0), override_shown(80)), (100, 80));
    assert_eq!(override_byte(Override::Feed, true), 0x91);
    assert_eq!(override_byte(Override::Feed, false), 0x92);
    assert_eq!(override_byte(Override::Spindle, true), 0x9a);
    assert_eq!(override_byte(Override::Spindle, false), 0x9b);
}

#[test]
fn machine_actions() {
    let a = native();
    let low = machine(Status::Idle);
    let high = MachineState { wpos: v(0.0, 0.0, 5.0), ..machine(Status::Idle) };
    assert!(action_enabled(&machine(Status::Alarm), MachineAction::Home));
    assert!(!action_enabled(&machine(Status::Hold), MachineAction::Home));
    assert!(action_enabled(&machine(Status::Run), MachineAction::Unlock));
    assert!(!action_enabled(&machine(Status::Alarm), MachineAction::ZeroZ));
    assert!(!action_enabled(&MachineState::default(), MachineAction::Unlock));
    assert_eq!(action_commands(&a, &low, MachineAction::Home), ["$H"]);
    assert_eq!(action_commands(&a, &low, MachineAction::Unlock), ["$X"]);
    assert_eq!(
        action_commands(&a, &low, MachineAction::WorkHomeXy),
        ["G90 G21 G0 Z5.000", "G90 G21 G0 X0 Y0"]
    );
    assert_eq!(
        action_commands(&a, &high, MachineAction::WorkHomeXyz),
        ["G90 G21 G0 X0 Y0", "G90 G21 G0 Z0"]
    );
    assert_eq!(action_commands(&a, &low, MachineAction::ZeroXy), ["G10 L20 P1 X0 Y0"]);
    assert_eq!(action_commands(&a, &low, MachineAction::ZeroZ), ["G10 L20 P1 Z0"]);
    assert_eq!(action_commands(&a, &low, MachineAction::ZeroXyz), ["G10 L20 P1 X0 Y0 Z0"]);
}

#[test]
fn two_clicks_within_three_seconds() {
    let mut c = ControlsState::default();
    assert!(!c.confirm(ConfirmAction::SpindleOn, 1000));
    assert_eq!(c.confirm_text(), Some("Confirm: click SPINDLE ON again"));
    assert!(c.confirm(ConfirmAction::SpindleOn, 3999));
    assert_eq!(c.confirm_text(), None);
    assert!(!c.confirm(ConfirmAction::SpindleOn, 5000));
    assert!(!c.confirm(ConfirmAction::SpindleOn, 8000));
    assert!(!c.confirm(ConfirmAction::SoftLimitEnable, 8001));
    assert_eq!(c.confirm_text(), Some("Confirm: click ENABLE again"));
    c.expire_confirm(11000);
    assert!(c.confirm.is_some());
    c.expire_confirm(11001);
    assert!(c.confirm.is_none());
    assert!(!c.confirm(ConfirmAction::SoftLimitDisable, 0));
    assert_eq!(c.confirm_text(), Some("Confirm: click DISABLE again"));
}

#[test]
fn the_spindle_needs_a_second_click() {
    let mut c = ControlsState::default();
    let still = machine(Status::Idle);
    let turning = MachineState { spindle: f(500.0), ..machine(Status::Run) };
    assert!(spindle_enabled(&still) && spindle_enabled(&turning));
    assert!(!spindle_enabled(&machine(Status::Hold)));
    assert_eq!(c.spindle_on(&still, 10), None);
    assert_eq!(c.spindle_on(&still, 20), Some("M3 S10000".to_string()));
    c.spindle_rpm = 800;
    assert_eq!(c.spindle_on(&turning, 30), Some("M3 S800".to_string()));
    assert_eq!(c.spindle_on(&still, 40), None);
    assert_eq!(c.spindle_off(), "M5");
    assert_eq!(c.spindle_on(&still, 50), None);
}

#[test]
fn soft_limits() {
    let mut c = ControlsState::default();
    let known = MachineState { max_travel: v(1.0, 2.0, 3.0), ..machine(Status::Alarm) };
    let unknown = machine(Status::Idle);
    assert!(soft_limits_enabled(&known) && !soft_limits_enabled(&unknown));
    assert!(c.toggle_soft_limits(&known, 0).is_empty());
    assert_eq!(c.toggle_soft_limits(&known, 1), ["$X", "$20=1", "$$"]);
    let on = MachineState { soft_limits: true, ..machine(Status::Idle) };
    assert!(soft_limits_enabled(&on));
    assert!(c.toggle_soft_limits(&on, 2).is_empty());
    assert_eq!(c.toggle_soft_limits(&on, 3), ["$20=0", "$$"]);
    c.note_travel(&known);
    assert_eq!(c.notice, "");
    c.note_travel(&unknown);
    assert_eq!(c.notice, "Set non-zero X/Y/Z travel before enabling soft limits.");
}

#[test]
fn travels() {
    let a = native();
    let mut c = ControlsState::default();
    let m = MachineState { max_travel: v(150.0, 110.25, 40.0), ..machine(Status::Idle) };
    assert!(!c.can_set_travel(&m));
    c.sync_travel(&m);
    assert_eq!(c.travel, m.max_travel);
    c.travel.x = f(99.0);
    c.sync_travel(&m);
    assert_eq!(c.travel.x, f(99.0));
    assert!(c.can_set_travel(&m));
    assert_eq!(c.set_travel(&a), ["$130=99.0", "$131=110.2", "$132=40.0", "$$"]);
}

#[test]
fn ports() {
    let mut c = ControlsState::default();
    assert_eq!(c.port(), None);
    let names = ["/dev/ttyS0", "/dev/ttyUSB1", "/dev/ttyACM0", "cu.usbmodem1", "x.usbserial-A"];
    let names: Vec<String> = names.iter().map(|s| s.to_string()).collect();
    assert_eq!(list_ports(Os::Linux, &names), ["/dev/ttyUSB1", "/dev/ttyACM0"]);
    assert_eq!(list_ports(Os::MacOs, &names), ["cu.usbmodem1", "x.usbserial-A"]);
    assert_eq!(list_ports(Os::Other, &names), names);
    c.port_index = 3;
    c.refresh(names);
    assert_eq!(c.port(), Some("/dev/ttyS0".to_string()));
    c.connected(Err("no".into()));
    assert_eq!(c.notice, "Connect failed: no");
    c.connected(Ok(()));
    assert_eq!(c.notice, "");
    c.notice = "x".into();
    c.disconnected();
    assert_eq!(c.notice, "");
}

#[test]
fn job_buttons() {
    let mut e = Engine::new(MachineState::default(), JobState::default());
    e.connect("p", 1, Ok(()));
    e.job.status = JobStatus::Running;
    assert!(under_way(&e.job));
    let running = JobState { status: JobStatus::Running, ..Default::default() };
    let paused = JobState { status: JobStatus::Paused, ..Default::default() };
    let idle = JobState::default();
    assert!(press_job(&mut e, &paused, JobButton::Pause).is_empty());
    assert_eq!(e.job.status, JobStatus::Running);
    assert_eq!(press_job(&mut e, &running, JobButton::Pause), [FEED_HOLD]);
    assert!(press_job(&mut e, &running, JobButton::Pause).is_empty());
    assert_eq!(e.job.status, JobStatus::Paused);
    assert_eq!(press_job(&mut e, &paused, JobButton::Pause), [CYCLE_START]);
    assert_eq!(press_job(&mut e, &running, JobButton::Stop), [SOFT_RESET]);
    assert!(!under_way(&e.job));
    assert!(press_job(&mut e, &idle, JobButton::Pause).is_empty());
    assert_eq!(press_job(&mut e, &idle, JobButton::EStop), [SOFT_RESET, SOFT_RESET]);
    e.disconnect();
    assert!(press_job(&mut e, &idle, JobButton::EStop).is_empty());
}

#[test]
fn keys() {
    let a = native();
    let job = JobState { lines: Arc::new(vec![]), ..Default::default() };
    let sent = |key: Key, status: Status| {
        match handle_key(&a, key, &machine(status), &job, f(1.0)) {
            KeyAction::Send(line) => line,
            _ => String::new(),
        }
    };
    assert_eq!(sent(Key::ArrowLeft, Status::Idle), "$J=G91 G21 X-1.0 F1000");
    assert_eq!(sent(Key::ArrowRight, Status::Idle), "$J=G91 G21 X1.0 F1000");
    assert_eq!(sent(Key::ArrowUp, Status::Idle), "$J=G91 G21 Y1.0 F1000");
    assert_eq!(sent(Key::ArrowDown, Status::Jog), "$J=G91 G21 Y-1.0 F1000");
    assert_eq!(sent(Key::PageUp, Status::Idle), "$J=G91 G21 Z1.0 F500");
    assert_eq!(sent(Key::PageDown, Status::Idle), "$J=G91 G21 Z-1.0 F500");
    assert_eq!(sent(Key::PageDown, Status::Run), "");
    let space = |status: JobStatus| {
        let job = JobState { status, ..Default::default() };
        handle_key(&a, Key::Space, &machine(Status::Run), &job, f(1.0))
    };
    assert!(matches!(space(JobStatus::Running), KeyAction::Pause));
    assert!(matches!(space(JobStatus::Paused), KeyAction::Resume));
    assert!(matches!(space(JobStatus::Idle), KeyAction::Nothing));
}

#[test]
fn drags() {
    let mut c = CameraController::default();
    assert_eq!(c.handle(DragMode::Free, Pointer::Motion), Reaction::Ignore);
    assert_eq!(c.handle(DragMode::Free, Pointer::Press(Button::Left, false)), Reaction::Ignore);
    assert_eq!(c.handle(DragMode::Free, Pointer::Press(Button::Left, true)), Reaction::Take);
    assert_eq!(c.drag, DragMode::Pan);
    assert_eq!(c.handle(DragMode::Pan, Pointer::Motion), Reaction::Move(DragMode::Pan));
    assert_eq!(c.handle(DragMode::Pan, Pointer::Release(Button::Right)), Reaction::Ignore);
    assert_eq!(c.handle(DragMode::Pan, Pointer::Release(Button::Left)), Reaction::Take);
    assert_eq!(c.drag, DragMode::Free);
    c.handle(DragMode::Free, Pointer::Press(Button::Right, true));
    assert_eq!(c.drag, DragMode::Zoom);
    c.handle(DragMode::Zoom, Pointer::Press(Button::Right, false));
    assert_eq!(c.drag, DragMode::Orbit);
    assert_eq!(c.handle(DragMode::Orbit, Pointer::Release(Button::Right)), Reaction::Take);
    assert_eq!(c.drag, DragMode::Free);
}

#[test]
fn first_state() {
    let ui = UiState::default();
    assert!(!ui.theme_set);
    assert_eq!(ui.controls.jog_step, f(1.0));
    assert_eq!(ui.controls.spindle_rpm, 10000);
    assert_eq!(ui.editor.sim_feed, f(20.0));
    assert_eq!((ui.probe.grid_x, ui.probe.grid_y), (5, 5));
    assert_eq!(ui.probe.max_depth, f(0.3));
}
