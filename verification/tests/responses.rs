use grbly::arith::{Calculator, Op, Scalar, Style};
use grbly::grbl::parser::{parse_response, Response, ResponseType};
use grbly::grbl::state::{Status, Vec3};

/// The machine's own arithmetic.
type Native = Calculator<
    fn(Op, bool, u64, u64) -> u64,
    fn(bool, &str) -> u64,
    fn(Style, u64) -> String,
>;

// The bits of a number, one pattern for all that are none.
fn single_bits(r: f32) -> u64 {
    if r.is_nan() {
        0x7fc0_0000
    } else {
        r.to_bits() as u64
    }
}

// The bits of a number, one pattern for all that are none.
fn double_bits(r: f64) -> u64 {
    if r.is_nan() {
        0x7ff8_0000_0000_0000
    } else {
        r.to_bits()
    }
}

fn single(op: Op, x: u64, y: u64) -> u64 {
    let a = f32::from_bits(x as u32);
    let b = f32::from_bits(y as u32);
    let r = match op {
        Op::Add => a + b,
        Op::Sub => a - b,
        Op::Mul => a * b,
        Op::Div => a / b,
        Op::Sqrt => a.sqrt(),
        Op::Square => a.powi(2),
        Op::Floor => a.floor(),
        Op::Ceil => a.ceil(),
        Op::Round => a.round(),
        Op::Trunc => a.trunc(),
        Op::Cos => a.cos(),
        Op::Sin => a.sin(),
        Op::Atan2 => a.atan2(b),
        Op::Convert => return double_bits(a as f64),
        Op::FromSigned => (x as i64) as f32,
        Op::FromUnsigned => x as f32,
        Op::ToSigned => return (a as i64) as u64,
        Op::ToUnsigned => return a as u64,
    };
    single_bits(r)
}

fn double(op: Op, x: u64, y: u64) -> u64 {
    let a = f64::from_bits(x);
    let b = f64::from_bits(y);
    let r = match op {
        Op::Add => a + b,
        Op::Sub => a - b,
        Op::Mul => a * b,
        Op::Div => a / b,
        Op::Sqrt => a.sqrt(),
        Op::Square => a.powi(2),
        Op::Floor => a.floor(),
        Op::Ceil => a.ceil(),
        Op::Round => a.round(),
        Op::Trunc => a.trunc(),
        Op::Cos => a.cos(),
        Op::Sin => a.sin(),
        Op::Atan2 => a.atan2(b),
        Op::Convert => return single_bits(a as f32),
        Op::FromSigned => (x as i64) as f64,
        Op::FromUnsigned => x as f64,
        Op::ToSigned => return (a as i64) as u64,
        Op::ToUnsigned => return a as u64,
    };
    double_bits(r)
}

fn calc(op: Op, wide: bool, x: u64, y: u64) -> u64 {
    if wide {
        double(op, x, y)
    } else {
        single(op, x, y)
    }
}

fn read(wide: bool, text: &str) -> u64 {
    if wide {
        double_bits(text.parse::<f64>().unwrap())
    } else {
        single_bits(text.parse::<f32>().unwrap())
    }
}

fn write(style: Style, bits: u64) -> String {
    match style {
        Style::Fixed(places) => format!("{:.*}", places as usize, f32::from_bits(bits as u32)),
        Style::Plain => format!("{}", f64::from_bits(bits)),
    }
}

fn native() -> Native {
    Calculator::new(calc, read, write)
}

fn f(x: f32) -> Scalar {
    Scalar { bits: x.to_bits() }
}

fn v(x: f32, y: f32, z: f32) -> Vec3 {
    Vec3 { x: f(x), y: f(y), z: f(z) }
}

fn parse(line: &str) -> Response {
    parse_response(&native(), line)
}

#[test]
fn parse_ok() {
    let r = parse("ok");
    assert_eq!(r.resp_type, ResponseType::Ack);
}

#[test]
fn parse_error() {
    let r = parse("error:20");
    assert_eq!(r.resp_type, ResponseType::Error);
    assert_eq!(r.error_code, 20);
}

#[test]
fn parse_alarm() {
    let r = parse("ALARM:2");
    assert_eq!(r.resp_type, ResponseType::Alarm);
    assert_eq!(r.alarm_code, 2);
}

#[test]
fn parse_status_full() {
    let r = parse("<Run|MPos:1.000,2.000,3.000|FS:500,8000|Ov:100,100,100>");
    assert_eq!(r.resp_type, ResponseType::Status);
    assert_eq!(r.status, Status::Run);
    assert_eq!(r.mpos, v(1.0, 2.0, 3.0));
    assert_eq!(r.feed, f(500.0));
    assert_eq!(r.spindle, f(8000.0));
    assert_eq!(r.feed_ovr, 100);
    assert_eq!(r.spindle_ovr, 100);
}

#[test]
fn parse_status_with_wpos() {
    let r = parse("<Idle|WPos:10.000,20.000,-5.000|FS:0,0>");
    assert_eq!(r.wpos, v(10.0, 20.0, -5.0));
}

#[test]
fn parse_status_hold() {
    let r = parse("<Hold:0|MPos:0.000,0.000,0.000|FS:0,0>");
    assert_eq!(r.status, Status::Hold);
}

#[test]
fn parse_status_door() {
    let r = parse("<Door:0|MPos:0.000,0.000,0.000,0.000|Bf:35,111|FS:0,9000>");
    assert_eq!(r.resp_type, ResponseType::Status);
    assert_eq!(r.status, Status::Door);
    assert_eq!(r.mpos, v(0.0, 0.0, 0.0));
}

#[test]
fn parse_msg() {
    let r = parse("[MSG:Caution: Unlocked]");
    assert_eq!(r.resp_type, ResponseType::Msg);
    assert_eq!(r.message, "Caution: Unlocked");
}

#[test]
fn parse_welcome() {
    let r = parse("Grbl 1.1h ['$' for help]");
    assert_eq!(r.resp_type, ResponseType::Welcome);
}

#[test]
fn parse_unknown() {
    let r = parse("something unexpected");
    assert_eq!(r.resp_type, ResponseType::Unknown);
}

#[test]
fn parse_setting_with_description() {
    let r = parse("$20=1 (soft limits,bool)");
    assert_eq!(r.resp_type, ResponseType::Setting);
    assert_eq!(r.setting_num, 20);
    assert_eq!(r.setting_val, f(1.0));
}

#[test]
fn parse_setting_float_with_description() {
    let r = parse("$130=150.000 (X aixs max travel:mm)");
    assert_eq!(r.resp_type, ResponseType::Setting);
    assert_eq!(r.setting_num, 130);
    assert_eq!(r.setting_val, f(150.0));
}

#[test]
fn numbers_that_are_none_count_as_zero() {
    assert_eq!(parse("error:nope").error_code, 0);
    assert_eq!(parse("error:-7").error_code, -7);
    assert_eq!(parse("ALARM:99999999999").alarm_code, 0);
    let r = parse("<Idle|MPos:1,x,3|FS:5|Ov:1,2>");
    assert_eq!(r.mpos, v(1.0, 0.0, 3.0));
    assert_eq!(r.feed, f(0.0));
    assert_eq!(r.feed_ovr, 0);
    assert_eq!(parse("<Idle|WCO:1,2>").wco, v(0.0, 0.0, 0.0));
    assert!(parse("<Idle|WCO:1,2>").has_wco);
}

#[test]
fn all_status_words() {
    for (word, status) in [
        ("Idle", Status::Idle),
        ("Run", Status::Run),
        ("Hold:1", Status::Hold),
        ("Alarm", Status::Alarm),
        ("Home", Status::Home),
        ("Check", Status::Check),
        ("Jog", Status::Jog),
        ("Door:3", Status::Door),
        ("Sleep", Status::Sleep),
        ("idle", Status::Disconnected),
    ] {
        assert_eq!(parse(&format!("<{word}|FS:1,2>")).status, status);
    }
    assert_eq!(parse("<>").resp_type, ResponseType::Unknown);
}

#[test]
fn probe_results_and_pins() {
    let r = parse("[PRB:1.000,2.000,-0.250:1]");
    assert_eq!(r.resp_type, ResponseType::Probe);
    assert_eq!(r.prb, v(1.0, 2.0, -0.25));
    assert!(r.probe_ok);
    assert!(!parse("[PRB:0.000,0.000,0.000:0]").probe_ok);
    assert_eq!(parse("[PRB:0,0,0]").resp_type, ResponseType::Unknown);
    let r = parse("<Idle|Pn:XP>");
    assert!(r.has_pins);
    assert_eq!(r.pins, "XP");
    assert!(!parse("<Idle|FS:0,0>").has_pins);
}

#[test]
fn settings_need_a_number_and_a_value() {
    assert_eq!(parse("$H=1").resp_type, ResponseType::Unknown);
    assert_eq!(parse("$20=").resp_type, ResponseType::Unknown);
    assert_eq!(parse("$20=  ").resp_type, ResponseType::Unknown);
    assert_eq!(parse("$X").resp_type, ResponseType::Unknown);
    assert_eq!(parse("[MSG:open").resp_type, ResponseType::Unknown);
    assert_eq!(parse("$132= 4e1 (z)").setting_val, f(40.0));
}
