//! Key presses and the events that they stand for.

use vstd::prelude::*;

verus! {

/// The identity of a key, as far as the menu tells keys apart.
#[derive(Debug, Clone, Copy, PartialEq, Eq)]
pub enum Key {
    /// A key that types the given character.
    Char(char),
    Backspace,
    Escape,
    Enter,
    Left,
    Right,
}

/// One input event, as the selection state machine consumes it.
#[derive(Debug, Clone, Copy, PartialEq, Eq)]
pub enum Event {
    /// A printable character was typed.
    Char(char),
    /// The last character of the query is to be removed.
    Backspace,
    /// The query is to be emptied.
    ClearLine,
    /// The cursor moves to the next match.
    NavigateRight,
    /// The cursor moves to the previous match.
    NavigateLeft,
    /// The session is abandoned.
    Cancel,
    /// The match under the cursor, or else the query itself, is chosen.
    Confirm,
}

/// The event that a key press stands for, if any. While the control key is
/// held, `u` clears the line, `c` cancels and every other key is ignored.
pub open spec fn decoded(key: Key, ctrl: bool) -> Option<Event> {
    if ctrl {
        match key {
            Key::Char(c) => if c == 'u' || c == 'U' {
                Some(Event::ClearLine)
            } else if c == 'c' || c == 'C' {
                Some(Event::Cancel)
            } else {
                None
            },
            _ => None,
        }
    } else {
        match key {
            Key::Char(c) => Some(Event::Char(c)),
            Key::Backspace => Some(Event::Backspace),
            Key::Escape => Some(Event::Cancel),
            Key::Enter => Some(Event::Confirm),
            Key::Left => Some(Event::NavigateLeft),
            Key::Right => Some(Event::NavigateRight),
        }
    }
}

/// Turns a key press, with the state of the control key, into the event that
/// it stands for.
pub fn decode(key: Key, ctrl: bool) -> (event: Option<Event>)
    ensures
        event == decoded(key, ctrl),
{
    if ctrl {
        match key {
            Key::Char('u') | Key::Char('U') => Some(Event::ClearLine),
            Key::Char('c') | Key::Char('C') => Some(Event::Cancel),
            _ => None,
        }
    } else {
        match key {
            Key::Char(c) => Some(Event::Char(c)),
            Key::Backspace => Some(Event::Backspace),
            Key::Escape => Some(Event::Cancel),
            Key::Enter => Some(Event::Confirm),
            Key::Left => Some(Event::NavigateLeft),
            Key::Right => Some(Event::NavigateRight),
        }
    }
}

} // verus!
