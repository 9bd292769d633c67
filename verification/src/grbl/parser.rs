//! What the controller says.
use vstd::prelude::*;
use vstd::slice::slice_subrange;
use crate::arith::{read_single, single_text, Arithmetic, Scalar};
use crate::grbl::state::{origin, Status, Vec3};
use crate::lines::lemma_no_empty_number;
use crate::text::{
    after_prefix, cut_at, float_text, from_chars, integer_of, is_float_text, parse_i32, same_text,
    split, split_of, split_once, strip_prefix, to_chars, tokens, tokens_of, views,
};

verus! {

#[derive(Clone, Copy, Debug, PartialEq, Eq, Structural)]
pub enum ResponseType {
    /// A line was taken.
    Ack,
    Error,
    Alarm,
    Status,
    Msg,
    Setting,
    Welcome,
    /// The result of a probing move.
    Probe,
    Unknown,
}

/// A line from the controller.
#[derive(Clone, Debug)]
pub struct Response {
    pub resp_type: ResponseType,
    pub error_code: i32,
    pub alarm_code: i32,
    pub status: Status,
    pub mpos: Vec3,
    pub wpos: Vec3,
    pub wco: Vec3,
    pub has_mpos: bool,
    pub has_wpos: bool,
    pub has_wco: bool,
    pub feed: Scalar,
    pub spindle: Scalar,
    pub feed_ovr: i32,
    pub rapid_ovr: i32,
    pub spindle_ovr: i32,
    pub message: String,
    pub setting_num: i32,
    pub setting_val: Scalar,
    /// Where the probe was, in machine coordinates.
    pub prb: Vec3,
    /// Whether the probe made contact.
    pub probe_ok: bool,
    pub has_pins: bool,
    /// The letters of the closed pins.
    pub pins: String,
}

/// What a response says.
#[verifier::ext_equal]
pub struct Reply {
    pub resp_type: ResponseType,
    pub error_code: i32,
    pub alarm_code: i32,
    pub status: Status,
    pub mpos: Vec3,
    pub wpos: Vec3,
    pub wco: Vec3,
    pub has_mpos: bool,
    pub has_wpos: bool,
    pub has_wco: bool,
    pub feed: Scalar,
    pub spindle: Scalar,
    pub feed_ovr: i32,
    pub rapid_ovr: i32,
    pub spindle_ovr: i32,
    pub message: Seq<char>,
    pub setting_num: i32,
    pub setting_val: Scalar,
    pub prb: Vec3,
    pub probe_ok: bool,
    pub has_pins: bool,
    pub pins: Seq<char>,
}

impl Response {
    pub open spec fn reply(&self) -> Reply {
        Reply {
            resp_type: self.resp_type,
            error_code: self.error_code,
            alarm_code: self.alarm_code,
            status: self.status,
            mpos: self.mpos,
            wpos: self.wpos,
            wco: self.wco,
            has_mpos: self.has_mpos,
            has_wpos: self.has_wpos,
            has_wco: self.has_wco,
            feed: self.feed,
            spindle: self.spindle,
            feed_ovr: self.feed_ovr,
            rapid_ovr: self.rapid_ovr,
            spindle_ovr: self.spindle_ovr,
            message: self.message@,
            setting_num: self.setting_num,
            setting_val: self.setting_val,
            prb: self.prb,
            probe_ok: self.probe_ok,
            has_pins: self.has_pins,
            pins: self.pins@,
        }
    }
}

/// A reply that says nothing.
pub open spec fn blank() -> Reply {
    Reply {
        resp_type: ResponseType::Unknown,
        error_code: 0,
        alarm_code: 0,
        status: Status::Disconnected,
        mpos: origin(),
        wpos: origin(),
        wco: origin(),
        has_mpos: false,
        has_wpos: false,
        has_wco: false,
        feed: Scalar { bits: 0 },
        spindle: Scalar { bits: 0 },
        feed_ovr: 0,
        rapid_ovr: 0,
        spindle_ovr: 0,
        message: Seq::empty(),
        setting_num: 0,
        setting_val: Scalar { bits: 0 },
        prb: origin(),
        probe_ok: false,
        has_pins: false,
        pins: Seq::empty(),
    }
}

impl Default for Response {
    fn default() -> (r: Response)
        ensures
            r.reply() == blank(),
    {
        Response {
            resp_type: ResponseType::Unknown,
            error_code: 0,
            alarm_code: 0,
            status: Status::Disconnected,
            mpos: Vec3::default(),
            wpos: Vec3::default(),
            wco: Vec3::default(),
            has_mpos: false,
            has_wpos: false,
            has_wco: false,
            feed: Scalar { bits: 0 },
            spindle: Scalar { bits: 0 },
            feed_ovr: 0,
            rapid_ovr: 0,
            spindle_ovr: 0,
            message: String::new(),
            setting_num: 0,
            setting_val: Scalar { bits: 0 },
            prb: Vec3::default(),
            probe_ok: false,
            has_pins: false,
            pins: String::new(),
        }
    }
}

/// The number that `s` denotes, or zero.
pub open spec fn number_in<A: Arithmetic>(a: &A, s: Seq<char>) -> Scalar {
    if float_text(s) {
        single_text(a, s)
    } else {
        Scalar { bits: 0 }
    }
}

fn parse_number<A: Arithmetic>(a: &A, s: &[char]) -> (x: Scalar)
    requires
        a.lawful(),
    ensures
        x == number_in(a, s@),
{
    if is_float_text(s) {
        read_single(a, s)
    } else {
        Scalar { bits: 0 }
    }
}

/// The integer that `s` denotes, where it is an `i32`.
pub open spec fn i32_in(s: Seq<char>) -> Option<i32> {
    match integer_of(s) {
        Some(v) if i32::MIN <= v <= i32::MAX => Some(v as i32),
        _ => None,
    }
}

/// The integer that `s` denotes, or zero.
pub open spec fn code_in(s: Seq<char>) -> i32 {
    match i32_in(s) {
        Some(n) => n,
        None => 0,
    }
}

fn parse_code(s: &[char]) -> (n: i32)
    ensures
        n == code_in(s@),
{
    match parse_i32(s) {
        Some(n) => n,
        None => 0,
    }
}

/// The first three of the numbers between commas; the origin where there are fewer.
pub open spec fn vec3_in<A: Arithmetic>(a: &A, s: Seq<char>) -> Vec3 {
    let parts = split_of(s, ',');
    if parts.len() < 3 {
        origin()
    } else {
        Vec3 {
            x: number_in(a, parts[0]),
            y: number_in(a, parts[1]),
            z: number_in(a, parts[2]),
        }
    }
}

fn parse_vec3<A: Arithmetic>(a: &A, s: &[char]) -> (v: Vec3)
    requires
        a.lawful(),
    ensures
        v == vec3_in(a, s@),
{
    let parts = split(s, ',');
    let ghost all = split_of(s@, ',');
    assert(all.len() == parts.len());
    assert(forall|k: int| 0 <= k < parts.len() ==> (#[trigger] parts@[k])@ == all[k]);
    if parts.len() < 3 {
        return Vec3::default();
    }
    Vec3 {
        x: parse_number(a, parts[0].as_slice()),
        y: parse_number(a, parts[1].as_slice()),
        z: parse_number(a, parts[2].as_slice()),
    }
}

/// What stands before the first colon, or everything.
pub open spec fn word_of(s: Seq<char>) -> Seq<char> {
    match cut_at(s, ':') {
        Some((word, _)) => word,
        None => s,
    }
}

/// The status that a report begins with; what follows a colon is a detail of it.
pub open spec fn status_in(s: Seq<char>) -> Status {
    let word = word_of(s);
    if word == "Idle"@ {
        Status::Idle
    } else if word == "Run"@ {
        Status::Run
    } else if word == "Hold"@ {
        Status::Hold
    } else if word == "Alarm"@ {
        Status::Alarm
    } else if word == "Home"@ {
        Status::Home
    } else if word == "Check"@ {
        Status::Check
    } else if word == "Jog"@ {
        Status::Jog
    } else if word == "Door"@ {
        Status::Door
    } else if word == "Sleep"@ {
        Status::Sleep
    } else {
        Status::Disconnected
    }
}

pub fn parse_status_word(s: &[char]) -> (status: Status)
    ensures
        status == status_in(s@),
{
    let word = match split_once(s, ':') {
        Some((word, _rest)) => word,
        None => s,
    };
    if same_text(word, "Idle") {
        Status::Idle
    } else if same_text(word, "Run") {
        Status::Run
    } else if same_text(word, "Hold") {
        Status::Hold
    } else if same_text(word, "Alarm") {
        Status::Alarm
    } else if same_text(word, "Home") {
        Status::Home
    } else if same_text(word, "Check") {
        Status::Check
    } else if same_text(word, "Jog") {
        Status::Jog
    } else if same_text(word, "Door") {
        Status::Door
    } else if same_text(word, "Sleep") {
        Status::Sleep
    } else {
        Status::Disconnected
    }
}

/// A report with one field more. A field is a name, a colon and a value; one with another name,
/// or with too few numbers, says nothing.
pub open spec fn with_field<A: Arithmetic>(a: &A, r: Reply, field: Seq<char>) -> Reply {
    match cut_at(field, ':') {
        None => r,
        Some((name, value)) => if name == "MPos"@ {
            Reply { mpos: vec3_in(a, value), has_mpos: true, ..r }
        } else if name == "WPos"@ {
            Reply { wpos: vec3_in(a, value), has_wpos: true, ..r }
        } else if name == "WCO"@ {
            Reply { wco: vec3_in(a, value), has_wco: true, ..r }
        } else if name == "FS"@ {
            match cut_at(value, ',') {
                Some((feed, spindle)) => Reply {
                    feed: number_in(a, feed),
                    spindle: number_in(a, spindle),
                    ..r
                },
                None => r,
            }
        } else if name == "Ov"@ {
            match cut_at(value, ',') {
                Some((feed, rest)) => match cut_at(rest, ',') {
                    Some((rapid, spindle)) => Reply {
                        feed_ovr: code_in(feed),
                        rapid_ovr: code_in(rapid),
                        spindle_ovr: code_in(spindle),
                        ..r
                    },
                    None => r,
                },
                None => r,
            }
        } else if name == "Pn"@ {
            Reply { has_pins: true, pins: value, ..r }
        } else {
            r
        },
    }
}

/// A report: a status word and fields, with bars between them.
pub open spec fn report_of<A: Arithmetic>(a: &A, fields: Seq<Seq<char>>) -> Reply
    decreases fields.len(),
{
    if fields.len() == 0 {
        Reply { resp_type: ResponseType::Status, ..blank() }
    } else if fields.len() == 1 {
        Reply { resp_type: ResponseType::Status, status: status_in(fields[0]), ..blank() }
    } else {
        with_field(a, report_of(a, fields.drop_last()), fields.last())
    }
}

fn parse_field<A: Arithmetic>(a: &A, r: &mut Response, field: &[char])
    requires
        a.lawful(),
    ensures
        final(r).reply() == with_field(a, old(r).reply(), field@),
{
    if let Some((name, value)) = split_once(field, ':') {
        if same_text(name, "MPos") {
            r.mpos = parse_vec3(a, value);
            r.has_mpos = true;
        } else if same_text(name, "WPos") {
            r.wpos = parse_vec3(a, value);
            r.has_wpos = true;
        } else if same_text(name, "WCO") {
            r.wco = parse_vec3(a, value);
            r.has_wco = true;
        } else if same_text(name, "FS") {
            if let Some((feed, spindle)) = split_once(value, ',') {
                r.feed = parse_number(a, feed);
                r.spindle = parse_number(a, spindle);
            }
        } else if same_text(name, "Ov") {
            if let Some((feed, rest)) = split_once(value, ',') {
                if let Some((rapid, spindle)) = split_once(rest, ',') {
                    r.feed_ovr = parse_code(feed);
                    r.rapid_ovr = parse_code(rapid);
                    r.spindle_ovr = parse_code(spindle);
                }
            }
        } else if same_text(name, "Pn") {
            r.has_pins = true;
            r.pins = from_chars(value);
        }
    }
}

fn parse_status<A: Arithmetic>(a: &A, s: &[char]) -> (r: Response)
    requires
        a.lawful(),
    ensures
        r.reply() == report_of(a, split_of(s@, '|')),
{
    let fields = split(s, '|');
    let ghost all = split_of(s@, '|');
    let mut r = Response::default();
    r.resp_type = ResponseType::Status;
    assert(all.len() == fields.len());
    assert(fields@[0]@ == all[0]);
    r.status = parse_status_word(fields[0].as_slice());
    assert(all.take(1).len() == 1 && all.take(1)[0] == all[0]);
    for k in 1..fields.len()
        invariant
            a.lawful(),
            all == views(fields@),
            r.reply() == report_of(a, all.take(k as int)),
            k >= 1,
    {
        assert(all.take(k + 1).drop_last() == all.take(k as int));
        assert(fields@[k as int]@ == all[k as int]);
        parse_field(a, &mut r, fields[k].as_slice());
    }
    assert(all.take(fields.len() as int) == all);
    r
}

/// What stands between a prefix and a closing bracket at the end.
pub open spec fn bracketed(s: Seq<char>, prefix: Seq<char>) -> Option<Seq<char>> {
    match after_prefix(s, prefix) {
        Some(rest) => if rest.len() > 0 && rest.last() == ']' {
            Some(rest.drop_last())
        } else {
            None
        },
        None => None,
    }
}

fn strip_brackets<'a>(s: &'a [char], prefix: &str) -> (inner: Option<&'a [char]>)
    ensures
        match inner {
            Some(i) => bracketed(s@, prefix@) == Some(i@),
            None => bracketed(s@, prefix@) is None,
        },
{
    match strip_prefix(s, prefix) {
        Some(rest) => if rest.len() > 0 && rest[rest.len() - 1] == ']' {
            let inner = slice_subrange(rest, 0, rest.len() - 1);
            assert(inner@ == rest@.drop_last());
            Some(inner)
        } else {
            None
        },
        None => None,
    }
}

/// The first token of `s`, or nothing.
pub open spec fn first_token(s: Seq<char>) -> Seq<char> {
    if tokens_of(s).len() > 0 {
        tokens_of(s)[0]
    } else {
        Seq::empty()
    }
}

/// A setting: a dollar sign, its number, an equals sign and its value, which a remark may follow.
pub open spec fn setting_in<A: Arithmetic>(a: &A, s: Seq<char>) -> Option<(i32, Scalar)> {
    if s.len() > 0 && s[0] == '$' {
        match cut_at(s.skip(1), '=') {
            Some((num, val)) => if i32_in(num) is Some && float_text(first_token(val)) {
                Some((i32_in(num)->0, single_text(a, first_token(val))))
            } else {
                None
            },
            None => None,
        }
    } else {
        None
    }
}

/// What a line from the controller says.
pub open spec fn reply_of<A: Arithmetic>(a: &A, s: Seq<char>) -> Reply {
    if s == "ok"@ {
        Reply { resp_type: ResponseType::Ack, ..blank() }
    } else if after_prefix(s, "error:"@) is Some {
        Reply {
            resp_type: ResponseType::Error,
            error_code: code_in(after_prefix(s, "error:"@)->0),
            ..blank()
        }
    } else if after_prefix(s, "ALARM:"@) is Some {
        Reply {
            resp_type: ResponseType::Alarm,
            alarm_code: code_in(after_prefix(s, "ALARM:"@)->0),
            ..blank()
        }
    } else if s.len() > 2 && s[0] == '<' && s.last() == '>' {
        report_of(a, split_of(s.subrange(1, s.len() - 1), '|'))
    } else if bracketed(s, "[MSG:"@) is Some {
        Reply { resp_type: ResponseType::Msg, message: bracketed(s, "[MSG:"@)->0, ..blank() }
    } else if bracketed(s, "[PRB:"@) is Some && cut_at(bracketed(s, "[PRB:"@)->0, ':') is Some {
        let (place, contact) = cut_at(bracketed(s, "[PRB:"@)->0, ':')->0;
        Reply {
            resp_type: ResponseType::Probe,
            prb: vec3_in(a, place),
            probe_ok: contact == "1"@,
            ..blank()
        }
    } else if after_prefix(s, "Grbl "@) is Some {
        Reply { resp_type: ResponseType::Welcome, ..blank() }
    } else {
        match setting_in(a, s) {
            Some((num, val)) => Reply {
                resp_type: ResponseType::Setting,
                setting_num: num,
                setting_val: val,
                ..blank()
            },
            None => blank(),
        }
    }
}

fn parse_setting<A: Arithmetic>(a: &A, s: &[char]) -> (setting: Option<(i32, Scalar)>)
    requires
        a.lawful(),
    ensures
        setting == setting_in(a, s@),
{
    if s.len() == 0 || s[0] != '$' {
        return None;
    }
    let body = slice_subrange(s, 1, s.len());
    assert(body@ == s@.skip(1));
    match split_once(body, '=') {
        Some((num, val)) => {
            let parts = tokens(val);
            let ghost all = tokens_of(val@);
            assert(all.len() == parts.len());
            if parts.len() == 0 {
                proof {
                    lemma_no_empty_number();
                }
                return None;
            }
            assert(parts@[0]@ == all[0]);
            if !is_float_text(parts[0].as_slice()) {
                return None;
            }
            match parse_i32(num) {
                Some(n) => Some((n, read_single(a, parts[0].as_slice()))),
                None => None,
            }
        },
        None => None,
    }
}

/// Takes a line from the controller apart.
pub fn parse_response<A: Arithmetic>(a: &A, line: &str) -> (r: Response)
    requires
        a.lawful(),
    ensures
        r.reply() == reply_of(a, line@),
{
    let chars = to_chars(line);
    let s = chars.as_slice();
    let mut r = Response::default();
    if same_text(s, "ok") {
        r.resp_type = ResponseType::Ack;
        return r;
    }
    if let Some(rest) = strip_prefix(s, "error:") {
        r.resp_type = ResponseType::Error;
        r.error_code = parse_code(rest);
        return r;
    }
    if let Some(rest) = strip_prefix(s, "ALARM:") {
        r.resp_type = ResponseType::Alarm;
        r.alarm_code = parse_code(rest);
        return r;
    }
    let n: usize = s.len();
    if n > 2 && s[0] == '<' && s[n - 1] == '>' {
        return parse_status(a, slice_subrange(s, 1, n - 1));
    }
    if let Some(inner) = strip_brackets(s, "[MSG:") {
        r.resp_type = ResponseType::Msg;
        r.message = from_chars(inner);
        return r;
    }
    if let Some(inner) = strip_brackets(s, "[PRB:") {
        if let Some((place, contact)) = split_once(inner, ':') {
            r.resp_type = ResponseType::Probe;
            r.prb = parse_vec3(a, place);
            r.probe_ok = same_text(contact, "1");
            return r;
        }
    }
    if strip_prefix(s, "Grbl ").is_some() {
        r.resp_type = ResponseType::Welcome;
        return r;
    }
    if let Some((num, val)) = parse_setting(a, s) {
        r.resp_type = ResponseType::Setting;
        r.setting_num = num;
        r.setting_val = val;
    }
    r
}

} // verus!
