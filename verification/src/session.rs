//! Sessions, user states and compositor events.

use vstd::prelude::*;

verus! {

/// What a user state is, as a mathematical value.
pub enum StateModel {
    Active { app_id: Seq<char>, workspace: Option<i32> },
    Idle,
}

/// A session as a mathematical value.
pub struct SessionModel {
    pub start: i64,
    pub end: i64,
    pub state: StateModel,
}

/// An event as a mathematical value.
pub enum EventModel {
    ActiveWindowChanged(Option<Seq<char>>),
    WorkspaceChanged(i32),
    Idle(bool),
    Tick,
}

/// User state: either focused on an application window, or idle.
#[derive(Debug, PartialEq, Clone)]
pub enum State {
    /// The user is focused on the window of application `app_id`,
    /// on workspace `workspace` where the compositor has workspaces.
    Active { app_id: String, workspace: Option<i32> },
    /// The user is not interacting with any application.
    Idle,
}

impl View for State {
    type V = StateModel;

    open spec fn view(&self) -> StateModel {
        match self {
            State::Active { app_id, workspace } => StateModel::Active {
                app_id: app_id@,
                workspace: *workspace,
            },
            State::Idle => StateModel::Idle,
        }
    }
}

impl State {
    /// Tells whether two states are the same state.
    pub fn same_as(&self, other: &State) -> (r: bool)
        ensures
            r == (self@ == other@),
    {
        match (self, other) {
            (
                State::Active { app_id: a1, workspace: w1 },
                State::Active { app_id: a2, workspace: w2 },
            ) => {
                let same_ws = match (w1, w2) {
                    (Some(x), Some(y)) => *x == *y,
                    (None, None) => true,
                    _ => false,
                };
                let same_app = *a1 == *a2;
                same_app && same_ws
            },
            (State::Idle, State::Idle) => true,
            _ => false,
        }
    }

    /// A copy of this state.
    pub fn duplicate(&self) -> (r: State)
        ensures
            r@ == self@,
    {
        match self {
            State::Active { app_id, workspace } => State::Active {
                app_id: app_id.clone(),
                workspace: *workspace,
            },
            State::Idle => State::Idle,
        }
    }

    /// Whether this is the idle state.
    pub fn is_idle(&self) -> (r: bool)
        ensures
            r == (self@ == StateModel::Idle),
    {
        match self {
            State::Idle => true,
            _ => false,
        }
    }
}

/// A continuous period of one user state, from `start` to `end`
/// (timestamps in the units of the clock that produced them).
#[derive(Debug, Clone)]
pub struct Session {
    /// Session start time.
    pub start: i64,
    /// Session end time.
    pub end: i64,
    /// User state during this session.
    pub state: State,
}

impl View for Session {
    type V = SessionModel;

    open spec fn view(&self) -> SessionModel {
        SessionModel { start: self.start, end: self.end, state: self.state@ }
    }
}

/// The views of a sequence of sessions.
pub open spec fn sessions_view(s: Seq<Session>) -> Seq<SessionModel> {
    s.map_values(|x: Session| x@)
}

/// The view of an optional session.
pub open spec fn opt_session_view(o: Option<Session>) -> Option<SessionModel> {
    match o {
        Some(s) => Some(s@),
        None => None,
    }
}

impl Session {
    /// A copy of this session.
    pub fn duplicate(&self) -> (r: Session)
        ensures
            r@ == self@,
    {
        Session { start: self.start, end: self.end, state: self.state.duplicate() }
    }
}

/// An abstraction of the events of a Wayland compositor.
#[derive(Debug, PartialEq)]
pub enum Event {
    /// The focus moved to the window of the given application, or to nothing.
    ActiveWindowChanged(Option<String>),
    /// The current workspace changed to the given one.
    WorkspaceChanged(i32),
    /// The user became idle (`true`) or came back (`false`).
    Idle(bool),
    /// Time has passed.
    Tick,
}

impl View for Event {
    type V = EventModel;

    open spec fn view(&self) -> EventModel {
        match self {
            Event::ActiveWindowChanged(a) => EventModel::ActiveWindowChanged(
                match a {
                    Some(s) => Some(s@),
                    None => None,
                },
            ),
            Event::WorkspaceChanged(w) => EventModel::WorkspaceChanged(*w),
            Event::Idle(b) => EventModel::Idle(*b),
            Event::Tick => EventModel::Tick,
        }
    }
}

} // verus!
