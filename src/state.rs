use vstd::prelude::*;
use crate::click_data::{double_click, ClickData, NO_LINE};
use crate::confirmation::{confirms, Confirmation};
use crate::events::{ExplorerEvent, Key};
use crate::explorer::{selected_at, Explorer, ExplorerView, TreeAction};
use crate::entry::EntryType;
use crate::input::{edited, outcome, Input, InputEvent, InputView};

verus! {

/// Which handler the next key event goes to.
#[derive(Copy, Clone, PartialEq, Eq, Structural, Debug)]
pub enum AppState {
    Exploring,
    Input,
    Confirmation,
}

/// What the caller is to do after an event was routed.
#[derive(Debug)]
pub enum Dispatch {
    Nothing,
    Quit,
    /// Expand or collapse the selected directory.
    Toggle,
    Tree(TreeAction),
    Sh { command: String, args: Vec<String>, input: Option<String> },
}

/// The input state machine: an open text prompt, an action waiting for
/// confirmation, and the last click seen.
pub struct Router {
    input: Input,
    confirmation: Confirmation,
    last_click: ClickData,
}

pub struct RouterView {
    pub input: InputView,
    pub confirmation: Option<ExplorerEvent>,
    pub last_click: ClickData,
}

impl View for Router {
    type V = RouterView;

    closed spec fn view(&self) -> RouterView {
        RouterView {
            input: self.input@,
            confirmation: self.confirmation@,
            last_click: self.last_click,
        }
    }
}

/// At most one of the prompt and the confirmation is live.
pub open spec fn router_wf(v: RouterView) -> bool {
    !(v.input.active && v.confirmation is Some)
}

/// The prompt closed, with its text and its action dropped.
pub open spec fn closed_input(i: InputView) -> InputView {
    InputView { text: Seq::empty(), active: false, event: None }
}

/// The state and the request that dispatching `event` gives, with `text`
/// the text that a prompt captured for it, if any.
pub open spec fn dispatched(v: RouterView, event: ExplorerEvent, text: Option<String>) -> (
    RouterView,
    Dispatch,
) {
    match event {
        ExplorerEvent::Move(d) => (v, Dispatch::Tree(TreeAction::Move(d))),
        ExplorerEvent::Scroll(d) => (v, Dispatch::Tree(TreeAction::Scroll(d))),
        ExplorerEvent::Expand => (v, Dispatch::Tree(TreeAction::Expand)),
        ExplorerEvent::Collapse => (v, Dispatch::Tree(TreeAction::Collapse)),
        ExplorerEvent::Quit => (v, Dispatch::Quit),
        ExplorerEvent::Sh { command, args } => (v, Dispatch::Sh { command, args, input: text }),
        ExplorerEvent::Input { event } => (
            RouterView {
                input: InputView { active: true, event: Some(*event), ..v.input },
                confirmation: None,
                ..v
            },
            Dispatch::Nothing,
        ),
        ExplorerEvent::Confirmation { event } => (
            RouterView { input: closed_input(v.input), confirmation: Some(*event), ..v },
            Dispatch::Nothing,
        ),
    }
}

/// What a click on screen row `row` at `time` leaves of the router, with
/// `t` the tree after the click selected its row: a click that completes a
/// double click on an entry toggles a directory or dispatches the
/// double-click action `double` on a file, and resets the tracker; any other
/// click becomes the last click.
pub open spec fn clicked(
    v: RouterView,
    t: ExplorerView,
    row: int,
    time: u128,
    delay: u128,
    double: Option<ExplorerEvent>,
) -> (RouterView, Dispatch) {
    let click = ClickData { time, line: row as usize };
    if v.last_click.time <= time && double_click(v.last_click, click, delay) && t.scroll + row - 1
        < t.entries.len() {
        let reset = RouterView { last_click: ClickData { time: 0, line: NO_LINE }, ..v };
        if t.entries[t.selected].entry_type == EntryType::Dir {
            (reset, Dispatch::Toggle)
        } else {
            match double {
                Some(e) => dispatched(reset, e, None),
                None => (reset, Dispatch::Nothing),
            }
        }
    } else {
        (RouterView { last_click: click, ..v }, Dispatch::Nothing)
    }
}

impl Router {
    pub open spec fn wf(&self) -> bool {
        router_wf(self@)
    }

    pub fn new() -> (r: Router)
        ensures
            r.wf(),
            r@.input.text.len() == 0,
            !r@.input.active,
            r@.input.event is None,
            r@.confirmation is None,
            r@.last_click.line == NO_LINE,
            r@.last_click.time == 0,
    {
        Router { input: Input::new(), confirmation: Confirmation::new(), last_click: ClickData::default() }
    }

    /// Which handler the next key event goes to.
    pub fn state(&self) -> (r: AppState)
        requires
            self.wf(),
        ensures
            r == (if self@.input.active {
                AppState::Input
            } else if self@.confirmation is Some {
                AppState::Confirmation
            } else {
                AppState::Exploring
            }),
    {
        if self.input.active() {
            AppState::Input
        } else if self.confirmation.active() {
            AppState::Confirmation
        } else {
            AppState::Exploring
        }
    }

    /// The text typed into the prompt.
    pub fn input_text(&self) -> (r: &str)
        ensures
            r@ == self@.input.text,
    {
        self.input.get_text()
    }

    /// Routes an action: a tree operation, `Quit` and a shell action go back
    /// to the caller; `Input` opens the prompt for its inner action and
    /// `Confirmation` puts its inner action up for confirmation, each closing
    /// the other. `text` is what a prompt captured for this action.
    pub fn dispatch(&mut self, event: ExplorerEvent, text: Option<String>) -> (r: Dispatch)
        requires
            old(self).wf(),
        ensures
            (final(self)@, r) == dispatched(old(self)@, event, text),
            router_wf(final(self)@),
    {
        match event {
            ExplorerEvent::Move(d) => Dispatch::Tree(TreeAction::Move(d)),
            ExplorerEvent::Scroll(d) => Dispatch::Tree(TreeAction::Scroll(d)),
            ExplorerEvent::Expand => Dispatch::Tree(TreeAction::Expand),
            ExplorerEvent::Collapse => Dispatch::Tree(TreeAction::Collapse),
            ExplorerEvent::Quit => Dispatch::Quit,
            ExplorerEvent::Sh { command, args } => Dispatch::Sh { command, args, input: text },
            ExplorerEvent::Input { event } => {
                self.confirmation.take();
                self.input.set_event(*event);
                self.input.set_active(true);
                Dispatch::Nothing
            },
            ExplorerEvent::Confirmation { event } => {
                self.input.clear();
                self.input.take_event();
                self.input.set_active(false);
                self.confirmation.set(*event);
                Dispatch::Nothing
            },
        }
    }

    /// Routes a key event. An open prompt takes every key: it edits its
    /// text, Escape closes it, Enter closes it and dispatches its action with
    /// the text. Otherwise a waiting confirmation takes the key: `y`
    /// dispatches the action, any other key drops it. With neither, the key
    /// is left to the key bindings: the result is `None`.
    pub fn on_key(&mut self, k: Key) -> (r: Option<Dispatch>)
        requires
            old(self).wf(),
        ensures
            final(self).wf(),
            old(self)@.input.active && !(k.pressed && outcome(k) is Some) ==> r == Some(
                Dispatch::Nothing,
            ) && final(self)@ == (RouterView {
                input: InputView {
                    text: if k.pressed {
                        edited(old(self)@.input.text, k)
                    } else {
                        old(self)@.input.text
                    },
                    ..old(self)@.input
                },
                ..old(self)@
            }),
            old(self)@.input.active && k.pressed && outcome(k) == Some(InputEvent::Cancel) ==> r
                == Some(Dispatch::Nothing) && final(self)@ == (RouterView {
                input: closed_input(old(self)@.input),
                ..old(self)@
            }),
            old(self)@.input.active && k.pressed && outcome(k) == Some(InputEvent::Accept) ==> {
                let closed = RouterView { input: closed_input(old(self)@.input), ..old(self)@ };
                match old(self)@.input.event {
                    None => r == Some(Dispatch::Nothing) && final(self)@ == closed,
                    Some(e) => exists|t: String|
                        t@ == old(self)@.input.text && r is Some && (final(self)@, r->0)
                            == #[trigger] dispatched(closed, e, Some(t)),
                }
            },
            !old(self)@.input.active && old(self)@.confirmation is Some ==> {
                let dropped = RouterView { confirmation: None, ..old(self)@ };
                if confirms(k) {
                    r is Some && (final(self)@, r->0) == dispatched(
                        dropped,
                        old(self)@.confirmation->0,
                        None,
                    )
                } else {
                    r == Some(Dispatch::Nothing) && final(self)@ == dropped
                }
            },
            !old(self)@.input.active && old(self)@.confirmation is None ==> r is None && final(self)@ == old(self)@,
    {
        if self.input.active() {
            match self.input.event(k) {
                None => Some(Dispatch::Nothing),
                Some(InputEvent::Cancel) => {
                    self.input.clear();
                    self.input.take_event();
                    self.input.set_active(false);
                    Some(Dispatch::Nothing)
                },
                Some(InputEvent::Accept) => {
                    let text = self.input.text();
                    let pending = self.input.take_event();
                    self.input.set_active(false);
                    match pending {
                        Some(e) => {
                            let ghost closed = self@;
                            let ghost t = text;
                            let d = self.dispatch(e, Some(text));
                            assert((self@, d) == dispatched(closed, e, Some(t)));
                            Some(d)
                        },
                        None => Some(Dispatch::Nothing),
                    }
                },
            }
        } else if self.confirmation.active() {
            let pending = self.confirmation.take();
            match pending {
                Some(e) => {
                    if self.confirmation.handle(k) {
                        Some(self.dispatch(e, None))
                    } else {
                        Some(Dispatch::Nothing)
                    }
                },
                None => Some(Dispatch::Nothing),
            }
        } else {
            None
        }
    }

    /// Routes a left click on screen row `row` at `time` milliseconds: row
    /// zero is the header and is ignored; any other row selects its entry,
    /// if it holds one, and may complete a double click under a threshold
    /// of `delay` milliseconds (a click that seems to come before the last
    /// one completes none).
    pub fn on_click(
        &mut self,
        explorer: &mut Explorer,
        row: usize,
        time: u128,
        delay: u128,
        double: Option<ExplorerEvent>,
    ) -> (r: Dispatch)
        requires
            old(self).wf(),
            old(explorer).wf(),
        ensures
            final(self).wf(),
            final(explorer).wf(),
            row == 0 ==> r == Dispatch::Nothing && final(self)@ == old(self)@ && final(explorer)@
                == old(explorer)@,
            row > 0 ==> final(explorer)@ == selected_at(old(explorer)@, row - 1) && (final(self)@, r) == clicked(old(self)@, final(explorer)@, row as int, time, delay, double),
    {
        if row == 0 {
            return Dispatch::Nothing;
        }
        explorer.set_selected(row - 1);
        let click = ClickData::new(row, time);
        if self.last_click.time <= time && self.last_click.is_double(&click, delay)
            && explorer.selection_valid(row - 1) {
            self.last_click = ClickData::default();
            if !explorer.is_file() {
                Dispatch::Toggle
            } else {
                match double {
                    Some(e) => self.dispatch(e, None),
                    None => Dispatch::Nothing,
                }
            }
        } else {
            self.last_click = click;
            Dispatch::Nothing
        }
    }
}

} // verus!