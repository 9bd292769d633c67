//! The whole of the display's state, and the keys.
use vstd::prelude::*;
use crate::arith::{Arithmetic, Scalar};
use crate::grbl::state::{JobState, JobStatus, MachineState};
use crate::ui::console::ConsoleState;
use crate::ui::controls::{can_jog, jog_line, jog_text, joggable, ControlsState, JogAxis};
use crate::ui::editor::EditorState;
use crate::ui::probe::ProbeState;

verus! {

/// The state of the display.
#[derive(Debug)]
pub struct UiState {
    pub controls: ControlsState,
    pub editor: EditorState,
    pub console: ConsoleState,
    pub probe: ProbeState,
    pub theme_set: bool,
}

impl Default for UiState {
    fn default() -> (s: UiState)
        ensures
            s.controls.fresh(),
            s.editor.fresh(),
            s.console.fresh(),
            s.probe.fresh(),
            !s.theme_set,
    {
        UiState {
            controls: ControlsState::default(),
            editor: EditorState::default(),
            console: ConsoleState::default(),
            probe: ProbeState::default(),
            theme_set: false,
        }
    }
}

/// The keys that do something.
#[derive(Clone, Copy, Debug, PartialEq, Eq, Structural)]
pub enum Key {
    ArrowLeft,
    ArrowRight,
    ArrowUp,
    ArrowDown,
    PageUp,
    PageDown,
    Space,
}

/// What a key does.
pub enum KeyAction {
    Nothing,
    Send(String),
    Pause,
    Resume,
}

/// The direction in which a key jogs.
pub open spec fn key_axis(key: Key) -> Option<JogAxis> {
    match key {
        Key::ArrowLeft => Some(JogAxis::XMinus),
        Key::ArrowRight => Some(JogAxis::XPlus),
        Key::ArrowUp => Some(JogAxis::YPlus),
        Key::ArrowDown => Some(JogAxis::YMinus),
        Key::PageUp => Some(JogAxis::ZPlus),
        Key::PageDown => Some(JogAxis::ZMinus),
        Key::Space => None,
    }
}

/// Takes a key: the arrows and the page keys jog, where the machine can be jogged, and the space
/// bar pauses a running job and lets a paused one go on.
pub fn handle_key<A: Arithmetic>(
    a: &A,
    key: Key,
    mstate: &MachineState,
    jstate: &JobState,
    jog_step: Scalar,
) -> (action: KeyAction)
    requires
        a.lawful(),
    ensures
        match key_axis(key) {
            Some(axis) => if joggable(mstate) {
                action matches KeyAction::Send(line) && line@ == jog_line(a, axis, jog_step, 1)
            } else {
                action is Nothing
            },
            None => match jstate.status {
                JobStatus::Running => action is Pause,
                JobStatus::Paused => action is Resume,
                _ => action is Nothing,
            },
        },
{
    let axis = match key {
        Key::ArrowLeft => JogAxis::XMinus,
        Key::ArrowRight => JogAxis::XPlus,
        Key::ArrowUp => JogAxis::YPlus,
        Key::ArrowDown => JogAxis::YMinus,
        Key::PageUp => JogAxis::ZPlus,
        Key::PageDown => JogAxis::ZMinus,
        Key::Space => {
            return match jstate.status {
                JobStatus::Running => KeyAction::Pause,
                JobStatus::Paused => KeyAction::Resume,
                _ => KeyAction::Nothing,
            };
        },
    };
    if can_jog(mstate) {
        KeyAction::Send(jog_text(a, axis, jog_step, 1))
    } else {
        KeyAction::Nothing
    }
}

} // verus!
