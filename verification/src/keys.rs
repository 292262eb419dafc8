//! The keys that the popup answers to.
use vstd::prelude::*;

verus! {

/// A key.
#[derive(Clone, Copy, Debug, PartialEq, Eq, Structural)]
pub enum KeyCode {
    BackTab,
    Tab,
    Down,
    Up,
    Enter,
    Esc,
    Char(char),
    Other,
}

/// What is held down with a key: nothing, exactly one of these, or something else.
#[derive(Clone, Copy, Debug, PartialEq, Eq, Structural)]
pub enum KeyModifiers {
    Plain,
    Shift,
    Control,
    Other,
}

/// What happens to a key.
#[derive(Clone, Copy, Debug, PartialEq, Eq, Structural)]
pub enum KeyEventKind {
    Press,
    Repeat,
    Release,
}

/// A key event.
#[derive(Clone, Copy, Debug, PartialEq, Eq, Structural)]
pub struct KeyEvent {
    pub code: KeyCode,
    pub modifiers: KeyModifiers,
    pub kind: KeyEventKind,
}

/// What a key asks of the popup.
#[derive(Clone, Copy, Debug, PartialEq, Eq, Structural)]
pub enum PopupKey {
    Previous,
    Next,
    Accept,
    Dismiss,
    Unbound,
}

/// Shift-Tab, Up and Ctrl-P select the previous completion; Tab, Down and Ctrl-N the next;
/// Enter alone accepts, Esc dismisses. Shift-Tab comes either as a key of its own or as
/// Tab with Shift.
pub open spec fn popup_key(e: KeyEvent) -> PopupKey {
    match e.code {
        KeyCode::BackTab => PopupKey::Previous,
        KeyCode::Tab => if e.modifiers == KeyModifiers::Shift {
            PopupKey::Previous
        } else {
            PopupKey::Next
        },
        KeyCode::Down => PopupKey::Next,
        KeyCode::Up => PopupKey::Previous,
        KeyCode::Char(c) => if e.modifiers != KeyModifiers::Control {
            PopupKey::Unbound
        } else if c == 'n' {
            PopupKey::Next
        } else if c == 'p' {
            PopupKey::Previous
        } else {
            PopupKey::Unbound
        },
        KeyCode::Enter => if e.modifiers == KeyModifiers::Plain {
            PopupKey::Accept
        } else {
            PopupKey::Unbound
        },
        KeyCode::Esc => PopupKey::Dismiss,
        KeyCode::Other => PopupKey::Unbound,
    }
}

/// What the key asks of the popup.
pub fn bound_key(e: KeyEvent) -> (r: PopupKey)
    ensures
        r == popup_key(e),
{
    match e.code {
        KeyCode::BackTab => PopupKey::Previous,
        KeyCode::Tab => if e.modifiers == KeyModifiers::Shift {
            PopupKey::Previous
        } else {
            PopupKey::Next
        },
        KeyCode::Down => PopupKey::Next,
        KeyCode::Up => PopupKey::Previous,
        KeyCode::Char(c) => if e.modifiers != KeyModifiers::Control {
            PopupKey::Unbound
        } else if c == 'n' {
            PopupKey::Next
        } else if c == 'p' {
            PopupKey::Previous
        } else {
            PopupKey::Unbound
        },
        KeyCode::Enter => if e.modifiers == KeyModifiers::Plain {
            PopupKey::Accept
        } else {
            PopupKey::Unbound
        },
        KeyCode::Esc => PopupKey::Dismiss,
        KeyCode::Other => PopupKey::Unbound,
    }
}

} // verus!
