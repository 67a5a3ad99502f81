//! The press-and-release logic of a button.
use vstd::prelude::*;

use crate::event::{ButtonEvent, ElementState, MouseButton, PanelEvent};

verus! {

/// Whether a button is held down.
pub struct Button {
    pub pressed: bool,
}

/// What a button reports on `event` when it was `pressed` before: a left
/// press inside it presses it; a left release reports whether it happened
/// inside, if the button was pressed.
pub open spec fn button_report(pressed: bool, event: PanelEvent) -> Option<ButtonEvent> {
    match event {
        PanelEvent::MouseInput { in_bounds, state, button } => if button == MouseButton::Left {
            match state {
                ElementState::Pressed => if in_bounds {
                    Some(ButtonEvent::Press)
                } else {
                    None
                },
                ElementState::Released => if pressed {
                    Some(ButtonEvent::Release(in_bounds))
                } else {
                    None
                },
            }
        } else {
            None
        },
        _ => None,
    }
}

/// Whether a button is held down after `event`, held down before if `pressed`.
pub open spec fn button_pressed_after(pressed: bool, event: PanelEvent) -> bool {
    match event {
        PanelEvent::MouseInput { in_bounds, state, button } => if button == MouseButton::Left {
            match state {
                ElementState::Pressed => pressed || in_bounds,
                ElementState::Released => false,
            }
        } else {
            pressed
        },
        _ => pressed,
    }
}

impl Button {
    /// A button that is not held down.
    pub fn new() -> (r: Button)
        ensures
            !r.pressed,
    {
        Button { pressed: false }
    }

    pub fn press(&mut self)
        ensures
            final(self).pressed,
    {
        self.pressed = true;
    }

    /// Lets the button go; says whether it was held down.
    pub fn release(&mut self) -> (r: bool)
        ensures
            r == old(self).pressed,
            !final(self).pressed,
    {
        let pressed = self.pressed;
        self.pressed = false;
        pressed
    }

    /// Follows `event` and returns what the button reports on it.
    pub fn on_event(&mut self, event: &PanelEvent) -> (r: Option<ButtonEvent>)
        ensures
            r == button_report(old(self).pressed, *event),
            final(self).pressed == button_pressed_after(old(self).pressed, *event),
    {
        match *event {
            PanelEvent::MouseInput { in_bounds, state, button } => {
                match button {
                    MouseButton::Left => match state {
                        ElementState::Pressed => {
                            if in_bounds {
                                self.press();
                                Some(ButtonEvent::Press)
                            } else {
                                None
                            }
                        },
                        ElementState::Released => {
                            if self.release() {
                                Some(ButtonEvent::Release(in_bounds))
                            } else {
                                None
                            }
                        },
                    },
                    _ => None,
                }
            },
            _ => None,
        }
    }
}

} // verus!
