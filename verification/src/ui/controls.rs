//! The panel with the connection, the readout and the controls of the machine.
use vstd::prelude::*;
use crate::arith::{fixed, minus, show_fixed, Arithmetic, Scalar};
use crate::grbl::engine::{Engine, CYCLE_START, FEED_HOLD, SOFT_RESET};
use crate::grbl::heightmap::text_of;
use crate::grbl::state::{origin, JobState, JobStatus, MachineState, Status, Vec3};
use crate::lines::append;
use crate::text::{decimal, decimal_of, from_chars, string_views, to_chars};
use crate::ui::color::Ink;

verus! {

/// The height to which the tool goes before it travels, 5.
pub const RETRACT_Z: u32 = 0x40a0_0000;

/// The difference up to which jog steps are one, 0.01.
pub const STEP_TOLERANCE: u32 = 0x3c23_d70a;

/// The step of a jog at first, 1.
pub const FIRST_STEP: u32 = 0x3f80_0000;

/// The speed of the connection.
pub const BAUD: u32 = 115200;

/// How long a first click waits for the second, in milliseconds.
pub const CONFIRM_MS: u64 = 3000;

#[derive(Clone, Copy, Debug, PartialEq, Eq, Structural)]
pub enum ControlsTab {
    Run,
    Jog,
    Setup,
    Probe,
}

/// What must be clicked twice.
#[derive(Clone, Copy, Debug, PartialEq, Eq, Structural)]
pub enum ConfirmAction {
    SoftLimitEnable,
    SoftLimitDisable,
    SpindleOn,
}

/// The state of the panel. Times are milliseconds of one clock.
#[derive(Clone, Debug)]
pub struct ControlsState {
    pub port_list: Vec<String>,
    pub port_index: usize,
    pub jog_step: Scalar,
    pub spindle_rpm: u32,
    pub travel: Vec3,
    pub last_max_travel: Vec3,
    pub tab: ControlsTab,
    /// What was clicked once, and when.
    pub confirm: Option<(ConfirmAction, u64)>,
    pub notice: String,
}

impl ControlsState {
    /// The state at first.
    pub open spec fn fresh(self) -> bool {
        &&& self.port_list@.len() == 0
        &&& self.notice@.len() == 0
        &&& self == (ControlsState {
            port_list: self.port_list,
            port_index: 0,
            jog_step: Scalar { bits: FIRST_STEP },
            spindle_rpm: 10000,
            travel: origin(),
            last_max_travel: origin(),
            tab: ControlsTab::Run,
            confirm: None,
            notice: self.notice,
        })
    }
}

impl Default for ControlsState {
    fn default() -> (s: ControlsState)
        ensures
            s.fresh(),
    {
        ControlsState {
            port_list: Vec::new(),
            port_index: 0,
            jog_step: Scalar { bits: FIRST_STEP },
            spindle_rpm: 10000,
            travel: Vec3::default(),
            last_max_travel: Vec3::default(),
            tab: ControlsTab::Run,
            confirm: None,
            notice: String::new(),
        }
    }
}

/// A list of one text.
pub fn one_line_list(line: String) -> (v: Vec<String>)
    ensures
        string_views(v@) == seq![line@],
{
    let mut v: Vec<String> = Vec::new();
    v.push(line);
    assert(string_views(v@) == seq![line@]);
    v
}

/// Adds a text to a list.
pub fn push_line(v: &mut Vec<String>, line: String)
    ensures
        string_views(final(v)@) == string_views(old(v)@).push(line@),
{
    let ghost before = string_views(v@);
    v.push(line);
    assert(string_views(v@) == before.push(line@));
}

/// How long it is since `at`.
pub open spec fn since(now: u64, at: u64) -> int {
    if now >= at {
        now - at
    } else {
        0
    }
}

pub fn elapsed(now: u64, at: u64) -> (ms: u64)
    ensures
        ms == since(now, at),
{
    if now >= at {
        now - at
    } else {
        0
    }
}

/// Whether `action` was clicked, and not too long ago.
pub open spec fn armed(
    confirm: Option<(ConfirmAction, u64)>,
    action: ConfirmAction,
    now: u64,
) -> bool {
    confirm matches Some((pending, at)) && pending == action && since(now, at) < CONFIRM_MS
}

/// Whether the machine can be jogged.
pub open spec fn joggable(m: &MachineState) -> bool {
    m.connected && (m.status == Status::Idle || m.status == Status::Jog)
}

pub fn can_jog(mstate: &MachineState) -> (yes: bool)
    ensures
        yes == joggable(mstate),
{
    mstate.connected && (mstate.status == Status::Idle || mstate.status == Status::Jog)
}

/// The directions of a jog.
#[derive(Clone, Copy, Debug, PartialEq, Eq, Structural)]
pub enum JogAxis {
    XPlus,
    XMinus,
    YPlus,
    YMinus,
    ZPlus,
    ZMinus,
}

impl JogAxis {
    pub open spec fn name(self) -> Seq<char> {
        match self {
            JogAxis::XPlus => "X"@,
            JogAxis::XMinus => "X-"@,
            JogAxis::YPlus => "Y"@,
            JogAxis::YMinus => "Y-"@,
            JogAxis::ZPlus => "Z"@,
            JogAxis::ZMinus => "Z-"@,
        }
    }

    /// The feed: half for the tool's own axis.
    pub open spec fn feed(self) -> Seq<char> {
        match self {
            JogAxis::ZPlus | JogAxis::ZMinus => " F500"@,
            _ => " F1000"@,
        }
    }
}

/// The command for a jog by `step`, written with `places` digits behind the point.
pub open spec fn jog_line<A: Arithmetic>(a: &A, axis: JogAxis, step: Scalar, places: u8) -> Seq<
    char,
> {
    "$J=G91 G21 "@ + axis.name() + fixed(a, step, places) + axis.feed()
}

pub fn jog_text<A: Arithmetic>(a: &A, axis: JogAxis, step: Scalar, places: u8) -> (line: String)
    requires
        a.lawful(),
    ensures
        line@ == jog_line(a, axis, step, places),
{
    let name = match axis {
        JogAxis::XPlus => "X",
        JogAxis::XMinus => "X-",
        JogAxis::YPlus => "Y",
        JogAxis::YMinus => "Y-",
        JogAxis::ZPlus => "Z",
        JogAxis::ZMinus => "Z-",
    };
    let feed = match axis {
        JogAxis::ZPlus | JogAxis::ZMinus => " F500",
        _ => " F1000",
    };
    let mut line = to_chars("$J=G91 G21 ");
    append(&mut line, to_chars(name).as_slice());
    append(&mut line, to_chars(show_fixed(a, step, places).as_str()).as_slice());
    append(&mut line, to_chars(feed).as_slice());
    from_chars(line.as_slice())
}

/// Whether the step is the chosen one.
pub fn step_selected<A: Arithmetic>(a: &A, chosen: Scalar, step: Scalar) -> (yes: bool)
    requires
        a.lawful(),
    ensures
        yes == minus(a, chosen, step).absolute().below(Scalar { bits: STEP_TOLERANCE }),
{
    minus(a, chosen, step).abs().lt(Scalar { bits: STEP_TOLERANCE })
}

/// How the status is shown.
pub open spec fn status_shown(s: Status) -> (Ink, Seq<char>) {
    match s {
        Status::Idle => (Ink::Green, "IDLE"@),
        Status::Run => (Ink::Blue, "RUN"@),
        Status::Hold => (Ink::Amber, "HOLD"@),
        Status::Alarm => (Ink::Red, "ALARM"@),
        Status::Home => (Ink::Amber, "HOME"@),
        Status::Check => (Ink::Blue, "CHECK"@),
        Status::Jog => (Ink::Blue, "JOG"@),
        Status::Door => (Ink::Red, "DOOR"@),
        Status::Sleep => (Ink::Dim, "SLEEP"@),
        Status::Disconnected => (Ink::Dim, "---"@),
    }
}

pub fn status_display(s: Status) -> (shown: (Ink, &'static str))
    ensures
        (shown.0, shown.1@) == status_shown(s),
{
    match s {
        Status::Idle => (Ink::Green, "IDLE"),
        Status::Run => (Ink::Blue, "RUN"),
        Status::Hold => (Ink::Amber, "HOLD"),
        Status::Alarm => (Ink::Red, "ALARM"),
        Status::Home => (Ink::Amber, "HOME"),
        Status::Check => (Ink::Blue, "CHECK"),
        Status::Jog => (Ink::Blue, "JOG"),
        Status::Door => (Ink::Red, "DOOR"),
        Status::Sleep => (Ink::Dim, "SLEEP"),
        Status::Disconnected => (Ink::Dim, "---"),
    }
}

/// Whether the readout offers to let the machine go on.
pub fn offers_resume(mstate: &MachineState) -> (yes: bool)
    ensures
        yes == (mstate.status == Status::Hold || mstate.status == Status::Door),
{
    mstate.status == Status::Hold || mstate.status == Status::Door
}

/// The percentage that an override is shown with: that of an unknown one is a hundred.
pub fn override_shown(pct: i32) -> (shown: i32)
    ensures
        shown == if pct == 0 {
            100
        } else {
            pct
        },
{
    if pct == 0 {
        100
    } else {
        pct
    }
}

/// The overrides of the controller, and the bytes that raise and lower them.
#[derive(Clone, Copy, Debug, PartialEq, Eq, Structural)]
pub enum Override {
    Feed,
    Spindle,
}

/// The byte that changes an override by a tenth.
pub fn override_byte(which: Override, up: bool) -> (b: u8)
    ensures
        b == match (which, up) {
            (Override::Feed, true) => 0x91u8,
            (Override::Feed, false) => 0x92u8,
            (Override::Spindle, true) => 0x9Au8,
            (Override::Spindle, false) => 0x9Bu8,
        },
{
    match (which, up) {
        (Override::Feed, true) => 0x91,
        (Override::Feed, false) => 0x92,
        (Override::Spindle, true) => 0x9A,
        (Override::Spindle, false) => 0x9B,
    }
}

/// The commands of the setup tab.
#[derive(Clone, Copy, Debug, PartialEq, Eq, Structural)]
pub enum MachineAction {
    Home,
    Unlock,
    WorkHomeXy,
    WorkHomeXyz,
    ZeroXy,
    ZeroZ,
    ZeroXyz,
}

/// Whether the machine is in a state for a command.
pub open spec fn action_allowed(m: &MachineState, action: MachineAction) -> bool {
    match action {
        MachineAction::Home => m.connected && m.status != Status::Run && m.status != Status::Hold
            && m.status != Status::Jog,
        MachineAction::Unlock => m.connected,
        _ => m.connected && m.status == Status::Idle,
    }
}

pub fn action_enabled(mstate: &MachineState, action: MachineAction) -> (yes: bool)
    ensures
        yes == action_allowed(mstate, action),
{
    match action {
        MachineAction::Home => mstate.connected && mstate.status != Status::Run && mstate.status
            != Status::Hold && mstate.status != Status::Jog,
        MachineAction::Unlock => mstate.connected,
        _ => mstate.connected && mstate.status == Status::Idle,
    }
}

/// A move up, unless the tool is high enough, and then the lines that follow.
pub open spec fn retracted<A: Arithmetic>(a: &A, m: &MachineState, follow: Seq<Seq<char>>) -> Seq<
    Seq<char>,
> {
    if m.wpos.z.below(Scalar { bits: RETRACT_Z }) {
        seq!["G90 G21 G0 Z"@ + fixed(a, Scalar { bits: RETRACT_Z }, 3)] + follow
    } else {
        follow
    }
}

fn retract_then<A: Arithmetic>(a: &A, mstate: &MachineState, follow: Vec<String>) -> (out: Vec<
    String,
>)
    requires
        a.lawful(),
    ensures
        string_views(out@) == retracted(a, mstate, string_views(follow@)),
{
    let top = Scalar { bits: RETRACT_Z };
    if !mstate.wpos.z.lt(top) {
        return follow;
    }
    let mut line = to_chars("G90 G21 G0 Z");
    append(&mut line, to_chars(show_fixed(a, top, 3).as_str()).as_slice());
    let mut out = one_line_list(from_chars(line.as_slice()));
    let ghost all = string_views(follow@);
    let ghost first = string_views(out@);
    assert(first + all.take(0) == first);
    for i in 0..follow.len()
        invariant
            all == string_views(follow@),
            string_views(out@) == first + all.take(i as int),
    {
        push_line(&mut out, follow[i].clone());
        assert(all.take(i + 1) == all.take(i as int).push(all[i as int]));
    }
    assert(all.take(follow.len() as int) == all);
    out
}

/// The lines of a command. The tool goes up before it travels home.
pub open spec fn action_lines<A: Arithmetic>(a: &A, m: &MachineState, action: MachineAction) -> Seq<
    Seq<char>,
> {
    match action {
        MachineAction::Home => seq!["$H"@],
        MachineAction::Unlock => seq!["$X"@],
        MachineAction::WorkHomeXy => retracted(a, m, seq!["G90 G21 G0 X0 Y0"@]),
        MachineAction::WorkHomeXyz => retracted(
            a,
            m,
            seq!["G90 G21 G0 X0 Y0"@, "G90 G21 G0 Z0"@],
        ),
        MachineAction::ZeroXy => seq!["G10 L20 P1 X0 Y0"@],
        MachineAction::ZeroZ => seq!["G10 L20 P1 Z0"@],
        MachineAction::ZeroXyz => seq!["G10 L20 P1 X0 Y0 Z0"@],
    }
}

pub fn action_commands<A: Arithmetic>(a: &A, mstate: &MachineState, action: MachineAction) -> (out:
    Vec<String>)
    requires
        a.lawful(),
    ensures
        string_views(out@) == action_lines(a, mstate, action),
{
    match action {
        MachineAction::Home => one_line_list(text_of("$H")),
        MachineAction::Unlock => one_line_list(text_of("$X")),
        MachineAction::WorkHomeXy => retract_then(
            a,
            mstate,
            one_line_list(text_of("G90 G21 G0 X0 Y0")),
        ),
        MachineAction::WorkHomeXyz => {
            let mut follow = one_line_list(text_of("G90 G21 G0 X0 Y0"));
            push_line(&mut follow, text_of("G90 G21 G0 Z0"));
            assert(string_views(follow@) == seq!["G90 G21 G0 X0 Y0"@, "G90 G21 G0 Z0"@]);
            retract_then(a, mstate, follow)
        },
        MachineAction::ZeroXy => one_line_list(text_of("G10 L20 P1 X0 Y0")),
        MachineAction::ZeroZ => one_line_list(text_of("G10 L20 P1 Z0")),
        MachineAction::ZeroXyz => one_line_list(text_of("G10 L20 P1 X0 Y0 Z0")),
    }
}

/// Whether all travels are known.
pub open spec fn travels(v: Vec3) -> bool {
    let zero = Scalar { bits: 0 };
    zero.below(v.x) && zero.below(v.y) && zero.below(v.z)
}

fn has_travel(v: Vec3) -> (yes: bool)
    ensures
        yes == travels(v),
{
    let zero = Scalar { bits: 0 };
    zero.lt(v.x) && zero.lt(v.y) && zero.lt(v.z)
}

/// Whether the spindle can be started.
pub fn spindle_enabled(mstate: &MachineState) -> (yes: bool)
    ensures
        yes == (mstate.connected && (mstate.status == Status::Idle || mstate.status
            == Status::Run)),
{
    mstate.connected && (mstate.status == Status::Idle || mstate.status == Status::Run)
}

/// Whether the soft limits can be switched: off at any time, on only with known travels.
pub fn soft_limits_enabled(mstate: &MachineState) -> (yes: bool)
    ensures
        yes == (mstate.connected && (mstate.soft_limits || travels(mstate.max_travel))),
{
    mstate.connected && (mstate.soft_limits || has_travel(mstate.max_travel))
}

impl ControlsState {
    /// Takes a new list of ports.
    pub fn refresh(&mut self, ports: Vec<String>)
        ensures
            *final(self) == (ControlsState { port_list: ports, port_index: 0, ..*old(self) }),
    {
        self.port_list = ports;
        self.port_index = 0;
    }

    /// The chosen port.
    pub fn port(&self) -> (port: Option<String>)
        ensures
            match port {
                Some(p) => self.port_index < self.port_list@.len() && p@
                    == self.port_list@[self.port_index as int]@,
                None => self.port_index >= self.port_list@.len(),
            },
    {
        if self.port_index < self.port_list.len() {
            Some(self.port_list[self.port_index].clone())
        } else {
            None
        }
    }

    /// Takes the outcome of connecting: what to tell the user.
    pub fn connected(&mut self, outcome: Result<(), String>)
        ensures
            final(self).notice@ == match outcome {
                Ok(()) => Seq::<char>::empty(),
                Err(e) => "Connect failed: "@ + e@,
            },
            *final(self) == (ControlsState {
                notice: final(self).notice,
                last_max_travel: origin(),
                ..*old(self)
            }),
    {
        match outcome {
            Ok(()) => {
                self.notice = String::new();
                assert(self.notice@ == Seq::<char>::empty());
            },
            Err(e) => {
                let mut text = to_chars("Connect failed: ");
                append(&mut text, to_chars(e.as_str()).as_slice());
                self.notice = from_chars(text.as_slice());
            },
        }
        self.last_max_travel = Vec3::default();
    }

    /// Takes note that the connection was closed.
    pub fn disconnected(&mut self)
        ensures
            final(self).notice@.len() == 0,
            *final(self) == (ControlsState {
                notice: final(self).notice,
                last_max_travel: origin(),
                ..*old(self)
            }),
    {
        self.last_max_travel = Vec3::default();
        self.notice = String::new();
    }

    /// Takes a click on `action` at the time `now`: whether it is the second one in time. The
    /// first one is remembered.
    pub fn confirm(&mut self, action: ConfirmAction, now: u64) -> (confirmed: bool)
        ensures
            confirmed == armed(old(self).confirm, action, now),
            *final(self) == (ControlsState {
                confirm: if confirmed {
                    None
                } else {
                    Some((action, now))
                },
                ..*old(self)
            }),
    {
        let confirmed = match self.confirm {
            Some((pending, at)) => pending == action && elapsed(now, at) < CONFIRM_MS,
            None => false,
        };
        self.confirm =
        if confirmed {
            None
        } else {
            Some((action, now))
        };
        confirmed
    }

    /// Forgets a first click that is too old.
    pub fn expire_confirm(&mut self, now: u64)
        ensures
            *final(self) == (ControlsState {
                confirm: match old(self).confirm {
                    Some((_, at)) if since(now, at) >= CONFIRM_MS => None,
                    other => other,
                },
                ..*old(self)
            }),
    {
        if let Some((_action, at)) = self.confirm {
            if elapsed(now, at) >= CONFIRM_MS {
                self.confirm = None;
            }
        }
    }

    /// What to say while a second click is awaited.
    pub fn confirm_text(&self) -> (text: Option<&'static str>)
        ensures
            match text {
                Some(t) => match self.confirm {
                    Some((ConfirmAction::SoftLimitEnable, _)) => t@
                        == "Confirm: click ENABLE again"@,
                    Some((ConfirmAction::SoftLimitDisable, _)) => t@
                        == "Confirm: click DISABLE again"@,
                    Some((ConfirmAction::SpindleOn, _)) => t@
                        == "Confirm: click SPINDLE ON again"@,
                    None => false,
                },
                None => self.confirm is None,
            },
    {
        match self.confirm {
            Some((action, _at)) => Some(
                match action {
                    ConfirmAction::SoftLimitEnable => "Confirm: click ENABLE again",
                    ConfirmAction::SoftLimitDisable => "Confirm: click DISABLE again",
                    ConfirmAction::SpindleOn => "Confirm: click SPINDLE ON again",
                },
            ),
            None => None,
        }
    }

    /// Takes a click on the button that starts the spindle: the command, once it is confirmed. A
    /// turning spindle needs no confirmation.
    pub fn spindle_on(&mut self, mstate: &MachineState, now: u64) -> (command: Option<String>)
        ensures
            ({
                let turning = (Scalar { bits: 0 }).below(mstate.spindle);
                let confirmed = armed(old(self).confirm, ConfirmAction::SpindleOn, now);
                if turning || confirmed {
                    &&& command matches Some(c) && c@ == "M3 S"@ + decimal_of(
                        old(self).spindle_rpm as nat,
                    )
                    &&& final(self).notice@.len() == 0
                    &&& *final(self) == (ControlsState {
                        notice: final(self).notice,
                        confirm: if turning {
                            old(self).confirm
                        } else {
                            None
                        },
                        ..*old(self)
                    })
                } else {
                    &&& command is None
                    &&& *final(self) == (ControlsState {
                        confirm: Some((ConfirmAction::SpindleOn, now)),
                        ..*old(self)
                    })
                }
            }),
    {
        if (Scalar { bits: 0 }).lt(mstate.spindle) || self.confirm(ConfirmAction::SpindleOn, now) {
            let mut line = to_chars("M3 S");
            append(&mut line, to_chars(decimal(self.spindle_rpm as u64).as_str()).as_slice());
            self.notice = String::new();
            Some(from_chars(line.as_slice()))
        } else {
            None
        }
    }

    /// Takes a click on the button that stops the spindle: the command.
    pub fn spindle_off(&mut self) -> (command: String)
        ensures
            command@ == "M5"@,
            *final(self) == (ControlsState { confirm: None, ..*old(self) }),
    {
        self.confirm = None;
        text_of("M5")
    }

    /// Takes a click on the switch of the soft limits: the commands, once it is confirmed. A
    /// machine in alarm is unlocked first.
    pub fn toggle_soft_limits(&mut self, mstate: &MachineState, now: u64) -> (commands: Vec<String>)
        ensures
            ({
                let action = if mstate.soft_limits {
                    ConfirmAction::SoftLimitDisable
                } else {
                    ConfirmAction::SoftLimitEnable
                };
                if armed(old(self).confirm, action, now) {
                    &&& string_views(commands@) == (if mstate.status == Status::Alarm
                        || mstate.status == Status::Door {
                        seq!["$X"@]
                    } else {
                        Seq::empty()
                    }) + seq![
                        if mstate.soft_limits {
                            "$20=0"@
                        } else {
                            "$20=1"@
                        },
                        "$$"@,
                    ]
                    &&& final(self).notice@.len() == 0
                    &&& *final(self) == (ControlsState {
                        confirm: None,
                        notice: final(self).notice,
                        ..*old(self)
                    })
                } else {
                    &&& commands@.len() == 0
                    &&& *final(self) == (ControlsState {
                        confirm: Some((action, now)),
                        ..*old(self)
                    })
                }
            }),
    {
        let action = if mstate.soft_limits {
            ConfirmAction::SoftLimitDisable
        } else {
            ConfirmAction::SoftLimitEnable
        };
        let mut commands: Vec<String> = Vec::new();
        assert(string_views(commands@) == Seq::<Seq<char>>::empty());
        if !self.confirm(action, now) {
            return commands;
        }
        if mstate.status == Status::Alarm || mstate.status == Status::Door {
            push_line(&mut commands, text_of("$X"));
        }
        let ghost first = string_views(commands@);
        push_line(
            &mut commands,
            text_of(
                if mstate.soft_limits {
                    "$20=0"
                } else {
                    "$20=1"
                },
            ),
        );
        push_line(&mut commands, text_of("$$"));
        assert(string_views(commands@) == first + seq![
            if mstate.soft_limits {
                "$20=0"@
            } else {
                "$20=1"@
            },
            "$$"@,
        ]);
        self.notice = String::new();
        commands
    }

    /// Says what is missing before the soft limits can be switched on.
    pub fn note_travel(&mut self, mstate: &MachineState)
        ensures
            ({
                let missing = !mstate.soft_limits && !travels(mstate.max_travel);
                &&& missing ==> final(self).notice@
                    == "Set non-zero X/Y/Z travel before enabling soft limits."@
                &&& *final(self) == (ControlsState {
                    notice: if missing {
                        final(self).notice
                    } else {
                        old(self).notice
                    },
                    ..*old(self)
                })
            }),
    {
        if !mstate.soft_limits && !has_travel(mstate.max_travel) {
            self.notice = text_of("Set non-zero X/Y/Z travel before enabling soft limits.");
        }
    }

    /// Takes over travels that the controller has reported since.
    pub fn sync_travel(&mut self, mstate: &MachineState)
        ensures
            *final(self) == if mstate.max_travel.equals(old(self).last_max_travel) {
                *old(self)
            } else {
                ControlsState {
                    last_max_travel: mstate.max_travel,
                    travel: mstate.max_travel,
                    ..*old(self)
                }
            },
    {
        if !mstate.max_travel.same(self.last_max_travel) {
            self.last_max_travel = mstate.max_travel;
            self.travel = mstate.max_travel;
        }
    }

    pub fn can_set_travel(&self, mstate: &MachineState) -> (yes: bool)
        ensures
            yes == (mstate.connected && travels(self.travel)),
    {
        mstate.connected && has_travel(self.travel)
    }

    /// Takes a click on the button that sets the travels: the commands.
    pub fn set_travel<A: Arithmetic>(&mut self, a: &A) -> (commands: Vec<String>)
        requires
            a.lawful(),
        ensures
            string_views(commands@) == seq![
                "$130="@ + fixed(a, old(self).travel.x, 1),
                "$131="@ + fixed(a, old(self).travel.y, 1),
                "$132="@ + fixed(a, old(self).travel.z, 1),
                "$$"@,
            ],
            final(self).notice@.len() == 0,
            *final(self) == (ControlsState { notice: final(self).notice, ..*old(self) }),
    {
        let mut commands = one_line_list(setting(a, "$130=", self.travel.x));
        push_line(&mut commands, setting(a, "$131=", self.travel.y));
        push_line(&mut commands, setting(a, "$132=", self.travel.z));
        push_line(&mut commands, text_of("$$"));
        assert(string_views(commands@) == seq![
            "$130="@ + fixed(a, self.travel.x, 1),
            "$131="@ + fixed(a, self.travel.y, 1),
            "$132="@ + fixed(a, self.travel.z, 1),
            "$$"@,
        ]);
        self.notice = String::new();
        commands
    }
}

fn setting<A: Arithmetic>(a: &A, name: &str, value: Scalar) -> (line: String)
    requires
        a.lawful(),
    ensures
        line@ == name@ + fixed(a, value, 1),
{
    let mut line = to_chars(name);
    append(&mut line, to_chars(show_fixed(a, value, 1).as_str()).as_slice());
    from_chars(line.as_slice())
}

/// The buttons of the job.
#[derive(Clone, Copy, Debug, PartialEq, Eq, Structural)]
pub enum JobButton {
    /// Pause, or go on where the job is shown as paused.
    Pause,
    Stop,
    EStop,
}

/// Whether a job is under way, so that it can be paused and stopped.
pub fn under_way(jstate: &JobState) -> (yes: bool)
    ensures
        yes == (jstate.status == JobStatus::Running || jstate.status == JobStatus::Paused),
{
    jstate.status == JobStatus::Running || jstate.status == JobStatus::Paused
}

/// Takes a click on a button of the job: the bytes for the port. `jstate` is the job as the frame
/// shows it; what it no longer is, is neither paused nor resumed. An emergency stop resets twice.
pub fn press_job(engine: &mut Engine, jstate: &JobState, button: JobButton) -> (bytes: Vec<u8>)
    requires
        old(engine).wf(),
    ensures
        final(engine).wf(),
        ({
            let status = old(engine).job.status;
            let paused = jstate.status == JobStatus::Paused;
            let resumes = paused && status == JobStatus::Paused;
            let pauses = !paused && status == JobStatus::Running;
            let next = if button != JobButton::Pause {
                JobStatus::Idle
            } else if resumes {
                JobStatus::Running
            } else if pauses {
                JobStatus::Paused
            } else {
                status
            };
            let t = old(engine).queue.traffic();
            &&& final(engine).requeued(
                Engine { job: JobState { status: next, ..old(engine).job }, ..*old(engine) },
                if button == JobButton::Pause {
                    t
                } else {
                    t.cleared()
                },
            )
            &&& bytes@ == if !old(engine).port_open {
                Seq::<u8>::empty()
            } else {
                match button {
                    JobButton::Pause => if resumes {
                        seq![CYCLE_START]
                    } else if pauses {
                        seq![FEED_HOLD]
                    } else {
                        Seq::<u8>::empty()
                    },
                    JobButton::Stop => seq![SOFT_RESET],
                    JobButton::EStop => seq![SOFT_RESET, SOFT_RESET],
                }
            }
        }),
{
    let mut bytes: Vec<u8> = Vec::new();
    assert(bytes@ == Seq::<u8>::empty());
    match button {
        JobButton::Pause => {
            let byte = if jstate.status == JobStatus::Paused {
                engine.resume_job()
            } else {
                engine.pause_job()
            };
            if let Some(b) = byte {
                bytes.push(b);
                assert(bytes@ == seq![b]);
            }
        },
        JobButton::Stop => {
            if let Some(b) = engine.stop_job() {
                bytes.push(b);
                assert(bytes@ == seq![b]);
            }
        },
        JobButton::EStop => {
            if let Some(b) = engine.stop_job() {
                bytes.push(b);
            }
            if let Some(b) = engine.soft_reset() {
                bytes.push(b);
                assert(bytes@ == seq![b, b]);
            }
        },
    }
    bytes
}

/// A single click confirms nothing: it takes two on the same action, the second less than three
/// seconds after the first.
pub proof fn lemma_two_clicks(
    before: Option<(ConfirmAction, u64)>,
    action: ConfirmAction,
    first: u64,
    other: ConfirmAction,
    second: u64,
)
    requires
        !armed(before, action, first),
        first <= second,
    ensures
        armed(Some((action, first)), other, second) <==> other == action && second - first
            < CONFIRM_MS,
{
}

} // verus!
