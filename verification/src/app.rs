//! The application: what it does upon the key, the recorder, the recogniser and the menu,
//! and what it shows.
use vstd::prelude::*;

use crate::tray::TrayAction;
use crate::tray;

verus! {

/// What the application is doing.
#[derive(Clone, Copy, PartialEq, Eq, Structural, Debug)]
pub enum State {
    Loading,
    Ready,
    Recording,
    Recognizing,
    Failed,
}

/// What the application has to learn next.
#[derive(Clone, Copy, PartialEq, Eq, Structural, Debug)]
pub enum Query {
    /// How far loading the models is.
    ReadyHook,
    /// Whether the key to talk is down.
    Hotkey,
    /// Whether a text was recognised.
    Text,
    Nothing,
}

/// What the application learns.
#[derive(Clone, Copy, PartialEq, Eq, Structural, Debug)]
pub enum Event {
    /// The models are loaded, or not yet.
    Loaded(bool),
    /// The models cannot be loaded.
    LoadFailed,
    /// The key to talk is down, or up.
    Key(bool),
    /// The recorder was stopped, and had recorded something, or nothing.
    Stopped(bool),
    /// A text was recognised.
    Text,
}

/// What the application does.
#[derive(Clone, Copy, PartialEq, Eq, Structural, Debug)]
pub enum Action {
    Nothing,
    StartRecorder,
    /// Stop the recorder, and report what it recorded.
    StopRecorder,
    /// Recognise what was recorded.
    Recognize,
    /// Type the recognised text.
    Paste,
}

/// What the application is doing after `event`, and what it does upon it.
pub open spec fn next(state: State, event: Event) -> (State, Action) {
    match (state, event) {
        (State::Loading, Event::Loaded(true)) => (State::Ready, Action::Nothing),
        (State::Loading, Event::LoadFailed) => (State::Failed, Action::Nothing),
        (State::Ready, Event::Key(true)) => (State::Recording, Action::StartRecorder),
        (State::Recording, Event::Key(false)) => (State::Recording, Action::StopRecorder),
        (State::Recording, Event::Stopped(true)) => (State::Recognizing, Action::Recognize),
        (State::Recording, Event::Stopped(false)) => (State::Ready, Action::Nothing),
        (State::Recognizing, Event::Text) => (State::Ready, Action::Paste),
        _ => (state, Action::Nothing),
    }
}

/// When the application does something: it starts the recorder when it is ready and the key
/// goes down, stops it when it records and the key goes up, recognises when it recorded and
/// something was, and types when it recognises and a text came; never otherwise.
pub proof fn lemma_actions(state: State, event: Event)
    ensures
        next(state, event).1 == Action::StartRecorder <==> state == State::Ready && event
            == Event::Key(true),
        next(state, event).1 == Action::StopRecorder <==> state == State::Recording && event
            == Event::Key(false),
        next(state, event).1 == Action::Recognize <==> state == State::Recording && event
            == Event::Stopped(true),
        next(state, event).1 == Action::Paste <==> state == State::Recognizing && event
            == Event::Text,
{
}

/// When the application comes to do something else: it records from starting the recorder
/// until that has stopped, recognises from then until it types, unless nothing was recorded,
/// and is ready again; it gets ready when the models are loaded, and fails where they cannot
/// be.
pub proof fn lemma_changes(state: State, event: Event)
    ensures
        ({
            let (after, action) = next(state, event);
            &&& action == Action::StartRecorder <==> after == State::Recording && state != after
            &&& action == Action::Recognize <==> after == State::Recognizing && state != after
            &&& after == State::Failed && state != after <==> state == State::Loading && event
                == Event::LoadFailed
            &&& after == State::Ready && state != after <==> action == Action::Paste || state
                == State::Recording && event == Event::Stopped(false) || state == State::Loading
                && event == Event::Loaded(true)
            &&& after == State::Loading ==> state == State::Loading
        }),
{
}

/// Every talk is typed: from whatever made the application ready, pressing and releasing the
/// key, something having been recorded, and a text coming, start the recorder, stop it,
/// recognise and type, in this order, and the application is ready for the next talk. Where
/// nothing was recorded it is ready at once, and nothing is typed.
pub proof fn lemma_a_talk_is_typed(events: Seq<Event>)
    requires
        state_after(events) == State::Ready,
    ensures
        ({
            let pressed = events.push(Event::Key(true));
            let released = pressed.push(Event::Key(false));
            let stopped = released.push(Event::Stopped(true));
            let typed = stopped.push(Event::Text);
            &&& state_after(pressed) == State::Recording
            &&& state_after(released) == State::Recording
            &&& state_after(stopped) == State::Recognizing
            &&& state_after(typed) == State::Ready
            &&& times(pressed, Action::StartRecorder) == times(events, Action::StartRecorder) + 1
            &&& times(released, Action::StopRecorder) == times(pressed, Action::StopRecorder) + 1
            &&& times(stopped, Action::Recognize) == times(released, Action::Recognize) + 1
            &&& times(typed, Action::Paste) == times(stopped, Action::Paste) + 1
            &&& state_after(released.push(Event::Stopped(false))) == State::Ready
        }),
{
    let pressed = events.push(Event::Key(true));
    let released = pressed.push(Event::Key(false));
    let stopped = released.push(Event::Stopped(true));
    let typed = stopped.push(Event::Text);
    let empty = released.push(Event::Stopped(false));
    assert(pressed.drop_last() =~= events && pressed.last() == Event::Key(true));
    assert(released.drop_last() =~= pressed && released.last() == Event::Key(false));
    assert(stopped.drop_last() =~= released && stopped.last() == Event::Stopped(true));
    assert(typed.drop_last() =~= stopped && typed.last() == Event::Text);
    assert(empty.drop_last() =~= released && empty.last() == Event::Stopped(false));
}

/// What the application is doing after all of `events`.
pub open spec fn state_after(events: Seq<Event>) -> State
    decreases events.len(),
{
    if events.len() == 0 {
        State::Loading
    } else {
        next(state_after(events.drop_last()), events.last()).0
    }
}

/// How often the application did `action` upon `events`.
pub open spec fn times(events: Seq<Event>, action: Action) -> nat
    decreases events.len(),
{
    if events.len() == 0 {
        0
    } else {
        times(events.drop_last(), action) + if next(
            state_after(events.drop_last()),
            events.last(),
        ).1 == action {
            1nat
        } else {
            0nat
        }
    }
}

/// A text is pasted once for every recording that is recognised, and one recording is
/// recognised at a time: while one is, there is one paste outstanding, and none otherwise.
pub proof fn lemma_one_paste_per_recognition(events: Seq<Event>)
    ensures
        times(events, Action::Recognize) == times(events, Action::Paste) + if state_after(events)
            == State::Recognizing {
            1nat
        } else {
            0nat
        },
    decreases events.len(),
{
    if events.len() > 0 {
        lemma_one_paste_per_recognition(events.drop_last());
    }
}

/// Nothing is recognised that was not recorded: every recognition has a recording that was
/// started before it, and one that goes on is not recognised yet.
pub proof fn lemma_recognitions_have_recordings(events: Seq<Event>)
    ensures
        times(events, Action::Recognize) + if state_after(events) == State::Recording {
            1nat
        } else {
            0nat
        } <= times(events, Action::StartRecorder),
    decreases events.len(),
{
    if events.len() > 0 {
        lemma_recognitions_have_recordings(events.drop_last());
    }
}

/// An application that failed to load stays so and does nothing; and until the models are
/// loaded nothing is done.
pub proof fn lemma_nothing_unless_loaded(events: Seq<Event>, action: Action)
    requires
        action != Action::Nothing,
    ensures
        state_after(events) == State::Loading || state_after(events) == State::Failed ==> times(
            events,
            action,
        ) == 0,
        forall|event: Event| #[trigger]
            next(State::Failed, event) == (State::Failed, Action::Nothing),
    decreases events.len(),
{
    if events.len() > 0 {
        lemma_nothing_unless_loaded(events.drop_last(), action);
    }
}

/// What the window shows.
#[derive(Clone, Copy, PartialEq, Eq, Debug)]
pub enum Display {
    /// A text beside a spinner.
    Spinner(&'static str),
    Text(&'static str),
    /// The level of the recording.
    Waveform,
}

/// What is done upon a click in the menu.
pub enum TrayDecision {
    /// Change to this device.
    Select(String),
    /// Look for devices anew.
    Refresh,
    Quit,
    Ignore,
}

/// Milliseconds between two looks at a recording or a recognition.
pub const REPAINT_MS: u64 = 33;

/// The application.
pub struct App {
    state: State,
}

impl View for App {
    type V = State;

    closed spec fn view(&self) -> State {
        self.state
    }
}

impl App {
    /// An application whose models are being loaded.
    pub fn new() -> (r: App)
        ensures
            r@ == State::Loading,
    {
        App { state: State::Loading }
    }

    /// What it is doing.
    pub fn state(&self) -> (r: State)
        ensures
            r == self@,
    {
        self.state
    }

    /// What it has to learn next.
    pub fn query(&self) -> (r: Query)
        ensures
            r == match self@ {
                State::Loading => Query::ReadyHook,
                State::Ready => Query::Hotkey,
                State::Recording => Query::Hotkey,
                State::Recognizing => Query::Text,
                State::Failed => Query::Nothing,
            },
    {
        match self.state {
            State::Loading => Query::ReadyHook,
            State::Ready => Query::Hotkey,
            State::Recording => Query::Hotkey,
            State::Recognizing => Query::Text,
            State::Failed => Query::Nothing,
        }
    }

    /// Begins to record. Where it is not ready, nothing happens.
    pub fn start_record(&mut self) -> (r: Action)
        ensures
            (final(self)@, r) == next(old(self)@, Event::Key(true)),
    {
        match self.state {
            State::Ready => {
                self.state = State::Recording;
                Action::StartRecorder
            },
            _ => Action::Nothing,
        }
    }

    /// Takes what the recorder recorded. Where it is not recording, nothing happens.
    pub fn stop_record(&mut self, recorded: bool) -> (r: Action)
        ensures
            (final(self)@, r) == next(old(self)@, Event::Stopped(recorded)),
    {
        match self.state {
            State::Recording => if recorded {
                self.state = State::Recognizing;
                Action::Recognize
            } else {
                self.state = State::Ready;
                Action::Nothing
            },
            _ => Action::Nothing,
        }
    }

    /// Takes a recognised text. Where it is not recognising, nothing happens.
    pub fn paste_text(&mut self) -> (r: Action)
        ensures
            (final(self)@, r) == next(old(self)@, Event::Text),
    {
        match self.state {
            State::Recognizing => {
                self.state = State::Ready;
                Action::Paste
            },
            _ => Action::Nothing,
        }
    }

    /// Takes what it learned, and tells what is to be done.
    pub fn poll_state(&mut self, event: Event) -> (r: Action)
        ensures
            (final(self)@, r) == next(old(self)@, event),
    {
        match event {
            Event::Loaded(ready) => {
                if ready {
                    if let State::Loading = self.state {
                        self.state = State::Ready;
                    }
                }
                Action::Nothing
            },
            Event::LoadFailed => {
                if let State::Loading = self.state {
                    self.state = State::Failed;
                }
                Action::Nothing
            },
            Event::Key(pressed) => if pressed {
                self.start_record()
            } else {
                match self.state {
                    State::Recording => Action::StopRecorder,
                    _ => Action::Nothing,
                }
            },
            Event::Stopped(recorded) => self.stop_record(recorded),
            Event::Text => self.paste_text(),
        }
    }

    /// How soon the window is to be painted again by itself, in milliseconds; `None` where
    /// it need not be.
    pub fn repaint_after(&self) -> (r: Option<u64>)
        ensures
            r == if self@ == State::Recording || self@ == State::Recognizing {
                Some(REPAINT_MS)
            } else {
                None
            },
    {
        match self.state {
            State::Recording => Some(REPAINT_MS),
            State::Recognizing => Some(REPAINT_MS),
            _ => None,
        }
    }

    /// What the window shows.
    pub fn draw_ui(&self) -> (r: Display)
        ensures
            match self@ {
                State::Loading => r matches Display::Spinner(label) && label@ == "Loading"@,
                State::Failed => r matches Display::Text(label) && label@ == "Error"@,
                State::Ready => r matches Display::Text(label) && label@ == "Ready"@,
                State::Recording => r is Waveform,
                State::Recognizing => r matches Display::Text(label) && label@ == "Thinking..."@,
            },
    {
        match self.state {
            State::Loading => Display::Spinner("Loading"),
            State::Failed => Display::Text("Error"),
            State::Ready => Display::Text("Ready"),
            State::Recording => Display::Waveform,
            State::Recognizing => Display::Text("Thinking..."),
        }
    }

    /// What is done upon a click in the menu. The device is not changed during a recording
    /// or a recognition.
    pub fn on_tray(&self, action: TrayAction) -> (r: TrayDecision)
        ensures
            match action@ {
                tray::ActionView::SelectDevice(id) => if self@ == State::Recording || self@
                    == State::Recognizing {
                    r is Ignore
                } else {
                    r matches TrayDecision::Select(chosen) && chosen@ == id
                },
                tray::ActionView::RefreshDevices => r is Refresh,
                tray::ActionView::Quit => r is Quit,
            },
    {
        match action {
            TrayAction::SelectDevice(id) => match self.state {
                State::Recording => TrayDecision::Ignore,
                State::Recognizing => TrayDecision::Ignore,
                _ => TrayDecision::Select(id),
            },
            TrayAction::RefreshDevices => TrayDecision::Refresh,
            TrayAction::Quit => TrayDecision::Quit,
        }
    }
}

/// Width and height of the window.
pub fn get_window_size() -> (r: (u32, u32))
    ensures
        r == (100u32, 33u32),
{
    (100, 33)
}

} // verus!
