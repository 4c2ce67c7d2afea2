//! Key codes and key event values.

use crate::keyset::KeyCode;
use vstd::prelude::*;

verus! {

pub const KEY_ESC: KeyCode = 1;
pub const KEY_LEFTCTRL: KeyCode = 29;
pub const KEY_LEFTSHIFT: KeyCode = 42;
pub const KEY_RIGHTSHIFT: KeyCode = 54;
pub const KEY_LEFTALT: KeyCode = 56;
pub const KEY_CAPSLOCK: KeyCode = 58;
pub const KEY_RIGHTCTRL: KeyCode = 97;
pub const KEY_RIGHTALT: KeyCode = 100;
pub const KEY_LEFTMETA: KeyCode = 125;
pub const KEY_RIGHTMETA: KeyCode = 126;

/// Shift, Ctrl, Alt and Meta, left and right.
pub open spec fn conventional_modifier(code: KeyCode) -> bool {
    code == KEY_LEFTCTRL || code == KEY_RIGHTCTRL || code == KEY_LEFTSHIFT || code
        == KEY_RIGHTSHIFT || code == KEY_LEFTALT || code == KEY_RIGHTALT || code == KEY_LEFTMETA
        || code == KEY_RIGHTMETA
}

pub fn is_conventional_modifier(code: KeyCode) -> (b: bool)
    ensures
        b == conventional_modifier(code),
{
    code == KEY_LEFTCTRL || code == KEY_RIGHTCTRL || code == KEY_LEFTSHIFT || code
        == KEY_RIGHTSHIFT || code == KEY_LEFTALT || code == KEY_RIGHTALT || code == KEY_LEFTMETA
        || code == KEY_RIGHTMETA
}

/// The three values a key event can carry, plus whatever else a device may send.
#[derive(Clone, Copy, Debug, PartialEq, Eq, Structural)]
pub enum KeyEventType {
    Release,
    Press,
    Repeat,
    Unknown(i32),
}

impl KeyEventType {
    /// The event value as read from the device: 0 release, 1 press, 2 repeat.
    pub open spec fn spec_from_value(value: i32) -> KeyEventType {
        if value == 0 {
            KeyEventType::Release
        } else if value == 1 {
            KeyEventType::Press
        } else if value == 2 {
            KeyEventType::Repeat
        } else {
            KeyEventType::Unknown(value)
        }
    }

    /// The value written to a device for this kind of event.
    pub open spec fn spec_value(self) -> i32 {
        match self {
            KeyEventType::Release => 0,
            KeyEventType::Press => 1,
            KeyEventType::Repeat => 2,
            KeyEventType::Unknown(n) => n,
        }
    }

    pub fn from_value(value: i32) -> (r: KeyEventType)
        ensures
            r == Self::spec_from_value(value),
    {
        if value == 0 {
            KeyEventType::Release
        } else if value == 1 {
            KeyEventType::Press
        } else if value == 2 {
            KeyEventType::Repeat
        } else {
            KeyEventType::Unknown(value)
        }
    }

    pub fn value(&self) -> (v: i32)
        ensures
            v == self.spec_value(),
    {
        match self {
            KeyEventType::Release => 0,
            KeyEventType::Press => 1,
            KeyEventType::Repeat => 2,
            KeyEventType::Unknown(n) => *n,
        }
    }
}

} // verus!
