//! The events that panels receive and pass on to their children.
use vstd::prelude::*;

use crate::geometry::{Size, Vector2};

verus! {

/// Whether a mouse button went down or up.
#[derive(Clone, Copy, Debug, PartialEq, Eq, Structural)]
pub enum ElementState {
    Pressed,
    Released,
}

/// Which mouse button an input concerns.
#[derive(Clone, Copy, Debug, PartialEq, Eq, Structural)]
pub enum MouseButton {
    Left,
    Right,
    Middle,
    Other(u16),
}

/// A node-scoped event. A mouse input carries no position: a container
/// decides where it goes from the last cursor position it was told of.
#[derive(Clone, Copy, Debug, PartialEq, Eq, Structural)]
pub enum PanelEvent {
    Resized(Size),
    CursorMoved(Vector2),
    MouseInput { in_bounds: bool, state: ElementState, button: MouseButton },
    Empty,
}

/// An event for one child, named by its identity.
#[derive(Clone, Copy, Debug, PartialEq, Eq, Structural)]
pub struct Delivery {
    pub child: usize,
    pub event: PanelEvent,
}

/// What a button reports: pressed, or released inside (`true`) or outside
/// its bounds.
#[derive(Clone, Copy, Debug, PartialEq, Eq, Structural)]
pub enum ButtonEvent {
    Press,
    Release(bool),
}

} // verus!
