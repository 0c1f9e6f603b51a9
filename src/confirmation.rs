use vstd::prelude::*;
use crate::events::{ExplorerEvent, Key, KeyCode};

verus! {

/// An action waiting for the user to confirm it.
pub struct Confirmation {
    event: Option<ExplorerEvent>,
}

impl View for Confirmation {
    type V = Option<ExplorerEvent>;

    closed spec fn view(&self) -> Option<ExplorerEvent> {
        self.event
    }
}

/// Whether `k` confirms: the key `y`.
pub open spec fn confirms(k: Key) -> bool {
    k.code == KeyCode::Char('y')
}

impl Confirmation {
    pub fn new() -> (r: Confirmation)
        ensures
            r@ is None,
    {
        Confirmation { event: None }
    }

    /// Puts `event` up for confirmation.
    pub fn set(&mut self, event: ExplorerEvent)
        ensures
            final(self)@ == Some(event),
    {
        self.event = Some(event);
    }

    /// Whether an action waits for confirmation.
    pub fn active(&self) -> (r: bool)
        ensures
            r == self@ is Some,
    {
        self.event.is_some()
    }

    /// Whether key `k` confirms the waiting action.
    pub fn handle(&self, k: Key) -> (r: bool)
        ensures
            r == confirms(k),
    {
        match k.code {
            KeyCode::Char(c) => c == 'y',
            _ => false,
        }
    }

    /// Hands out the waiting action, leaving none.
    pub fn take(&mut self) -> (r: Option<ExplorerEvent>)
        ensures
            r == old(self)@,
            final(self)@ is None,
    {
        self.event.take()
    }
}

} // verus!
