//! Keys to actions. The table shown to the listener is in `help`.
//!
//! A key press is held as the library's own [`Key`]: the key and whether SHIFT and CONTROL
//! were down, all that the bindings read.
use vstd::prelude::*;

use crate::tui::app::Mode;

verus! {

/// What the listener asked for.
#[derive(Debug, Clone, Copy, PartialEq, Eq, Structural)]
pub enum Action {
    TogglePlay,
    /// `true` for the short (5s) seek, `false` for the long (10s) one.
    SeekBackward(bool),
    SeekForward(bool),
    PreviousLine,
    NextLine,
    /// `true` for the short (100ms) nudge, `false` for the long (500ms) one.
    NudgeEarlier(bool),
    NudgeLater(bool),
    /// Snap the clock to the nearest line's timestamp, pressed as that line is sung.
    TapSync,
    Restart,
    ReplayCountdown,
    ToggleHelp,
    Quit,
}

/// Which key was pressed.
#[derive(Debug, Clone, Copy, PartialEq, Eq, Structural)]
pub enum KeyCode {
    Char(char),
    Left,
    Right,
    Up,
    Down,
    Enter,
    Esc,
    /// Any key the bindings do not name.
    Other,
}

/// A key press: the key, and the modifiers the bindings look at.
#[derive(Debug, Clone, Copy, PartialEq, Eq, Structural)]
pub struct Key {
    pub code: KeyCode,
    pub shift: bool,
    pub control: bool,
}

impl Key {
    /// A key pressed with no modifier.
    pub fn plain(code: KeyCode) -> (r: Key)
        ensures
            r == (Key { code, shift: false, control: false }),
    {
        Key { code, shift: false, control: false }
    }
}

/// The action a key press asks for in `mode`: in help only the keys that close it answer;
/// elsewhere, a countdown included, every binding does.
pub open spec fn spec_action(key: Key, mode: Mode) -> Option<Action> {
    if mode == Mode::Help {
        match key.code {
            KeyCode::Char(c) => if c == '?' || c == 'q' {
                Some(Action::ToggleHelp)
            } else {
                None
            },
            KeyCode::Esc => Some(Action::ToggleHelp),
            _ => None,
        }
    } else {
        match key.code {
            KeyCode::Char(c) => {
                if c == ' ' {
                    Some(Action::TogglePlay)
                } else if c == 'h' {
                    Some(Action::SeekBackward(!key.shift))
                } else if c == 'l' {
                    Some(Action::SeekForward(!key.shift))
                } else if c == 'H' {
                    Some(Action::SeekBackward(false))
                } else if c == 'L' {
                    Some(Action::SeekForward(false))
                } else if c == 'k' {
                    Some(Action::PreviousLine)
                } else if c == 'j' {
                    Some(Action::NextLine)
                } else if c == ',' {
                    Some(Action::NudgeEarlier(true))
                } else if c == '.' {
                    Some(Action::NudgeLater(true))
                } else if c == '<' {
                    Some(Action::NudgeEarlier(false))
                } else if c == '>' {
                    Some(Action::NudgeLater(false))
                } else if c == '0' || c == 'r' {
                    Some(Action::Restart)
                } else if c == 'c' {
                    if key.control {
                        Some(Action::Quit)
                    } else {
                        Some(Action::ReplayCountdown)
                    }
                } else if c == '?' {
                    Some(Action::ToggleHelp)
                } else if c == 'q' {
                    Some(Action::Quit)
                } else {
                    None
                }
            },
            KeyCode::Left => Some(Action::SeekBackward(!key.shift)),
            KeyCode::Right => Some(Action::SeekForward(!key.shift)),
            KeyCode::Up => Some(Action::PreviousLine),
            KeyCode::Down => Some(Action::NextLine),
            KeyCode::Enter => Some(Action::TapSync),
            KeyCode::Esc => Some(Action::Quit),
            KeyCode::Other => None,
        }
    }
}

/// Resolve one key press into an `Action`, given the mode it was pressed in.
pub fn action(key: &Key, mode: Mode) -> (r: Option<Action>)
    ensures
        r == spec_action(*key, mode),
{
    if mode == Mode::Help {
        return match key.code {
            KeyCode::Char(c) => if c == '?' || c == 'q' {
                Some(Action::ToggleHelp)
            } else {
                None
            },
            KeyCode::Esc => Some(Action::ToggleHelp),
            _ => None,
        };
    }
    match key.code {
        KeyCode::Char(c) => {
            if c == ' ' {
                Some(Action::TogglePlay)
            } else if c == 'h' {
                Some(Action::SeekBackward(!key.shift))
            } else if c == 'l' {
                Some(Action::SeekForward(!key.shift))
            } else if c == 'H' {
                Some(Action::SeekBackward(false))
            } else if c == 'L' {
                Some(Action::SeekForward(false))
            } else if c == 'k' {
                Some(Action::PreviousLine)
            } else if c == 'j' {
                Some(Action::NextLine)
            } else if c == ',' {
                Some(Action::NudgeEarlier(true))
            } else if c == '.' {
                Some(Action::NudgeLater(true))
            } else if c == '<' {
                Some(Action::NudgeEarlier(false))
            } else if c == '>' {
                Some(Action::NudgeLater(false))
            } else if c == '0' || c == 'r' {
                Some(Action::Restart)
            } else if c == 'c' {
                if key.control {
                    Some(Action::Quit)
                } else {
                    Some(Action::ReplayCountdown)
                }
            } else if c == '?' {
                Some(Action::ToggleHelp)
            } else if c == 'q' {
                Some(Action::Quit)
            } else {
                None
            }
        },
        KeyCode::Left => Some(Action::SeekBackward(!key.shift)),
        KeyCode::Right => Some(Action::SeekForward(!key.shift)),
        KeyCode::Up => Some(Action::PreviousLine),
        KeyCode::Down => Some(Action::NextLine),
        KeyCode::Enter => Some(Action::TapSync),
        KeyCode::Esc => Some(Action::Quit),
        KeyCode::Other => None,
    }
}

/// In help, every key either closes help or does nothing.
pub proof fn lemma_help_only_closes(key: Key)
    ensures
        spec_action(key, Mode::Help) is None || spec_action(key, Mode::Help) == Some(
            Action::ToggleHelp,
        ),
{
}

} // verus!
