//! What the mouse does to the camera.
use vstd::prelude::*;

verus! {

/// What a drag does.
#[derive(Clone, Copy, Debug, PartialEq, Eq, Structural)]
pub enum DragMode {
    /// There is no drag.
    Free,
    Orbit,
    Zoom,
    Pan,
}

/// The buttons of a mouse.
#[derive(Clone, Copy, Debug, PartialEq, Eq, Structural)]
pub enum Button {
    Left,
    Right,
    Middle,
}

/// What happened to the mouse.
#[derive(Clone, Copy, Debug, PartialEq, Eq, Structural)]
pub enum Pointer {
    /// A button went down, with the control key held or not.
    Press(Button, bool),
    Release(Button),
    Motion,
}

/// What becomes of an event.
#[derive(Clone, Copy, Debug, PartialEq, Eq, Structural)]
pub enum Reaction {
    /// It is left to others.
    Ignore,
    /// It is taken.
    Take,
    /// It moves the camera.
    Move(DragMode),
}

/// The drag that is under way.
#[derive(Clone, Copy, Debug, PartialEq, Eq, Structural)]
pub struct CameraController {
    pub drag: DragMode,
}

impl Default for CameraController {
    fn default() -> (c: CameraController)
        ensures
            c.drag == DragMode::Free,
    {
        CameraController { drag: DragMode::Free }
    }
}

/// What an event does, where the drag `active` was under way before the events that came with it:
/// with the control key the left button pans and the right one zooms, else the right one orbits.
pub open spec fn handled(drag: DragMode, active: DragMode, event: Pointer) -> (DragMode, Reaction) {
    match event {
        Pointer::Press(Button::Left, true) => (DragMode::Pan, Reaction::Take),
        Pointer::Press(Button::Right, true) => (DragMode::Zoom, Reaction::Take),
        Pointer::Press(Button::Right, false) => (DragMode::Orbit, Reaction::Take),
        Pointer::Release(button) => if (button == Button::Left && active == DragMode::Pan) || (
        button == Button::Right && active != DragMode::Pan) {
            (DragMode::Free, Reaction::Take)
        } else {
            (drag, Reaction::Ignore)
        },
        Pointer::Motion => if active == DragMode::Free {
            (drag, Reaction::Ignore)
        } else {
            (drag, Reaction::Move(active))
        },
        _ => (drag, Reaction::Ignore),
    }
}

impl CameraController {
    pub fn handle(&mut self, active: DragMode, event: Pointer) -> (r: Reaction)
        ensures
            (final(self).drag, r) == handled(old(self).drag, active, event),
    {
        match event {
            Pointer::Press(button, ctrl) => {
                if button == Button::Left && ctrl {
                    self.drag = DragMode::Pan;
                    Reaction::Take
                } else if button == Button::Right && ctrl {
                    self.drag = DragMode::Zoom;
                    Reaction::Take
                } else if button == Button::Right {
                    self.drag = DragMode::Orbit;
                    Reaction::Take
                } else {
                    Reaction::Ignore
                }
            },
            Pointer::Release(button) => {
                if (button == Button::Left && active == DragMode::Pan) || (button == Button::Right
                    && active != DragMode::Pan) {
                    self.drag = DragMode::Free;
                    Reaction::Take
                } else {
                    Reaction::Ignore
                }
            },
            Pointer::Motion => {
                if active == DragMode::Free {
                    Reaction::Ignore
                } else {
                    Reaction::Move(active)
                }
            },
        }
    }
}

/// The button that began a drag ends it.
pub proof fn lemma_release_ends_drag(drag: DragMode, button: Button, ctrl: bool)
    requires
        handled(drag, drag, Pointer::Press(button, ctrl)).1 == Reaction::Take,
    ensures
        ({
            let begun = handled(drag, drag, Pointer::Press(button, ctrl)).0;
            &&& begun != DragMode::Free
            &&& handled(begun, begun, Pointer::Release(button)) == (
                DragMode::Free,
                Reaction::Take,
            )
        }),
{
}

} // verus!
