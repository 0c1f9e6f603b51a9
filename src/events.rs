use vstd::prelude::*;

verus! {

/// A semantic action that a key binding or a double click can name.
#[derive(Debug)]
pub enum ExplorerEvent {
    Move(i32),
    Scroll(i32),
    Expand,
    Collapse,
    Quit,
    Sh { command: String, args: Vec<String> },
    Input { event: Box<ExplorerEvent> },
    Confirmation { event: Box<ExplorerEvent> },
}

/// The key of a key event, as far as text capture and confirmation read it.
#[derive(Copy, Clone, PartialEq, Eq, Structural, Debug)]
pub enum KeyCode {
    Char(char),
    Backspace,
    Enter,
    Esc,
    Other,
}

/// A key event: its key, and whether it is a press or a repeat (as opposed
/// to a release).
#[derive(Copy, Clone, PartialEq, Eq, Structural, Debug)]
pub struct Key {
    pub code: KeyCode,
    pub pressed: bool,
}

} // verus!
