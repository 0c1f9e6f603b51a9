use vstd::prelude::*;
use crate::events::{ExplorerEvent, Key, KeyCode};

verus! {

/// What a key does to a text prompt beyond editing it.
#[derive(Copy, Clone, PartialEq, Eq, Structural, Debug)]
pub enum InputEvent {
    Cancel,
    Accept,
}

/// A text prompt: the typed text, whether the prompt is open, and the action
/// that the text is for.
pub struct Input {
    text: String,
    active: bool,
    event: Option<ExplorerEvent>,
}

pub struct InputView {
    pub text: Seq<char>,
    pub active: bool,
    pub event: Option<ExplorerEvent>,
}

impl View for Input {
    type V = InputView;

    closed spec fn view(&self) -> InputView {
        InputView { text: self.text@, active: self.active, event: self.event }
    }
}

/// The text after key `k` edited it: a character is appended, backspace
/// drops the last character, other keys leave it alone.
pub open spec fn edited(text: Seq<char>, k: Key) -> Seq<char> {
    match k.code {
        KeyCode::Char(c) => text.push(c),
        KeyCode::Backspace => if text.len() > 0 {
            text.drop_last()
        } else {
            text
        },
        _ => text,
    }
}

/// What key `k` asks of the prompt: Escape cancels, Enter accepts.
pub open spec fn outcome(k: Key) -> Option<InputEvent> {
    match k.code {
        KeyCode::Esc => Some(InputEvent::Cancel),
        KeyCode::Enter => Some(InputEvent::Accept),
        _ => None,
    }
}

/// Relies on String::push: appends one character.
#[verifier::external_body]
fn push_char(s: &mut String, c: char)
    ensures
        final(s)@ == old(s)@.push(c),
{
    s.push(c)
}

/// Relies on String::pop: removes and returns the last character, if any.
#[verifier::external_body]
fn pop_char(s: &mut String) -> (r: Option<char>)
    ensures
        old(s)@.len() == 0 ==> r is None && final(s)@ == old(s)@,
        old(s)@.len() > 0 ==> r == Some(old(s)@.last()) && final(s)@ == old(s)@.drop_last(),
{
    s.pop()
}

impl Input {
    pub fn new() -> (r: Input)
        ensures
            r@.text.len() == 0,
            !r@.active,
            r@.event is None,
    {
        Input { text: String::new(), active: false, event: None }
    }

    /// Hands out the typed text, leaving the prompt empty.
    pub fn text(&mut self) -> (r: String)
        ensures
            r@ == old(self)@.text,
            final(self)@ == (InputView { text: Seq::empty(), ..old(self)@ }),
    {
        let mut t = String::new();
        std::mem::swap(&mut t, &mut self.text);
        proof {
            assert(self@.text =~= Seq::<char>::empty());
        }
        t
    }

    /// The typed text.
    pub fn get_text(&self) -> (r: &str)
        ensures
            r@ == self@.text,
    {
        self.text.as_str()
    }

    /// Empties the typed text.
    pub fn clear(&mut self)
        ensures
            final(self)@ == (InputView { text: Seq::empty(), ..old(self)@ }),
    {
        self.text = String::new();
        proof {
            assert(self@.text =~= Seq::<char>::empty());
        }
    }

    /// Sets the action that the text is for.
    pub fn set_event(&mut self, event: ExplorerEvent)
        ensures
            final(self)@ == (InputView { event: Some(event), ..old(self)@ }),
    {
        self.event = Some(event);
    }

    /// Hands out the action that the text is for, leaving none.
    pub fn take_event(&mut self) -> (r: Option<ExplorerEvent>)
        ensures
            r == old(self)@.event,
            final(self)@ == (InputView { event: None, ..old(self)@ }),
    {
        self.event.take()
    }

    pub fn set_active(&mut self, active: bool)
        ensures
            final(self)@ == (InputView { active, ..old(self)@ }),
    {
        self.active = active;
    }

    /// Whether the prompt is open.
    pub fn active(&self) -> (r: bool)
        ensures
            r == self@.active,
    {
        self.active
    }

    /// Feeds key `k` to the prompt. A closed prompt and a key release change
    /// nothing; otherwise the text is edited and Escape or Enter is reported.
    pub fn event(&mut self, k: Key) -> (r: Option<InputEvent>)
        ensures
            !(old(self)@.active && k.pressed) ==> r is None && final(self)@ == old(self)@,
            old(self)@.active && k.pressed ==> r == outcome(k) && final(self)@ == (InputView {
                text: edited(old(self)@.text, k),
                ..old(self)@
            }),
    {
        if !self.active || !k.pressed {
            return None;
        }
        match k.code {
            KeyCode::Char(c) => {
                push_char(&mut self.text, c);
                None
            },
            KeyCode::Esc => Some(InputEvent::Cancel),
            KeyCode::Enter => Some(InputEvent::Accept),
            KeyCode::Backspace => {
                pop_char(&mut self.text);
                None
            },
            KeyCode::Other => None,
        }
    }
}

} // verus!
