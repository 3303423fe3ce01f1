//! Input events, as the window hands them to the tree.

use vstd::prelude::*;
use crate::geometry::Point;

verus! {

#[derive(Clone, Copy, PartialEq, Eq, Structural, Debug)]
pub enum PointerButton {
    Primary,
    Secondary,
    Auxiliary,
}

/// The modifier keys that are held down.
#[derive(Clone, Copy, PartialEq, Eq, Structural, Debug)]
pub struct Modifiers {
    pub shift: bool,
    pub control: bool,
    pub alt: bool,
    pub meta: bool,
}

#[derive(Clone, Copy, PartialEq, Eq, Structural, Debug)]
pub enum NamedKey {
    Enter,
    Escape,
    Tab,
    ArrowLeft,
    ArrowRight,
    ArrowUp,
    ArrowDown,
    F11,
}

#[derive(Clone, Copy, PartialEq, Eq, Structural, Debug)]
pub enum Key {
    Named(NamedKey),
    Character(char),
}

#[derive(Clone, Copy, PartialEq, Eq, Structural, Debug)]
pub struct PointerEvent {
    pub pos: Point,
    pub button: PointerButton,
    pub modifiers: Modifiers,
}

#[derive(Clone, Copy, PartialEq, Eq, Structural, Debug)]
pub struct KeyEvent {
    pub key: Key,
    pub modifiers: Modifiers,
}

#[derive(Clone, Copy, PartialEq, Eq, Structural, Debug)]
pub enum Event {
    PointerMove(Point),
    PointerDown(PointerEvent),
    PointerUp(PointerEvent),
    KeyDown(KeyEvent),
    KeyUp(KeyEvent),
    FocusGained,
    FocusLost,
}

impl Modifiers {
    pub open spec fn spec_empty() -> Modifiers {
        Modifiers { shift: false, control: false, alt: false, meta: false }
    }

    /// No modifier key.
    #[verifier::when_used_as_spec(spec_empty)]
    pub fn empty() -> (r: Modifiers)
        ensures
            r == Modifiers::spec_empty(),
    {
        Modifiers { shift: false, control: false, alt: false, meta: false }
    }
}

impl Event {
    pub open spec fn spec_allow_disabled(self) -> bool {
        self is FocusLost
    }

    /// Whether a disabled node still receives this event. Only the loss of
    /// focus gets through: a node must be able to let go of the focus it had
    /// when it was disabled.
    #[verifier::when_used_as_spec(spec_allow_disabled)]
    pub fn allow_disabled(self) -> (r: bool)
        ensures
            r == self.spec_allow_disabled(),
    {
        match self {
            Event::FocusLost => true,
            _ => false,
        }
    }
}

} // verus!
