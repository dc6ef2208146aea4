//! Input events, as plain values.
//!
//! The front end translates the terminal's key and mouse events into these
//! types before handing them to the session; only events the session reacts
//! to are distinguished, everything else arrives as `Other`.

use vstd::prelude::*;

verus! {

/// A pressed key.
#[derive(Clone, Copy, Debug, PartialEq, Eq, Structural)]
pub enum KeyCode {
    Char(char),
    Left,
    Right,
    Up,
    Down,
    Tab,
    Enter,
    Backspace,
    Esc,
    Other,
}

/// What a mouse event did.  `Down` is a button press; the button itself
/// does not matter to the session.
#[derive(Clone, Copy, Debug, PartialEq, Eq, Structural)]
pub enum MouseEventKind {
    Down,
    ScrollUp,
    ScrollDown,
    Other,
}

/// A mouse event at a terminal cell.
#[derive(Clone, Copy, Debug, PartialEq, Eq, Structural)]
pub struct MouseEvent {
    pub kind: MouseEventKind,
    pub column: u16,
    pub row: u16,
}

/// One input event: a key press, a mouse event, or anything else
/// (a resize, a key release), which the session ignores.
#[derive(Clone, Copy, Debug, PartialEq, Eq, Structural)]
pub enum Event {
    Key(KeyCode),
    Mouse(MouseEvent),
    Other,
}

} // verus!
