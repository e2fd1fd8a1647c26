//! The session manager: it turns compositor events into sessions.

use vstd::prelude::*;

use crate::session::{
    opt_session_view, sessions_view, Event, EventModel, Session, SessionModel, State, StateModel,
};

verus! {

/// A source of the current time.
///
/// The manager asks it for the time whenever an event needs one. It should
/// give a UNIX timestamp in seconds, but the units are up to the implementation.
pub trait Clock {
    /// Returns the current time.
    fn now(&self) -> i64;
}

/// What the manager did with an event or a flush.
#[derive(Debug, PartialEq, Eq, Structural, Clone, Copy)]
pub enum Response {
    /// The event was processed with nothing more to report.
    Handled,
    /// Nothing was done (the application is hidden, the state was already
    /// the requested one, there is no session, or the session is too short).
    Ignored,
    /// A new session was started.
    SessionCreated,
    /// `true`: the current session was saved and an idle one started;
    /// `false`: the idle session ended and the earlier one was resumed.
    SessionIdled(bool),
    /// The current session was saved; `merged` tells whether it extended the
    /// last saved session instead of being appended.
    Flushed { merged: bool },
}

/// The manager's configuration, as a mathematical value.
pub struct ConfigModel {
    pub flush_interval: i64,
    pub hidden_applications: Seq<Seq<char>>,
    pub min_session_duration: i64,
}

/// The manager's configuration.
pub struct Configuration {
    /// Time between automatic flushes.
    pub flush_interval: i64,
    /// Applications that the manager ignores.
    pub hidden_applications: Vec<String>,
    /// Sessions shorter than this are not saved (0 disables the filter).
    pub min_session_duration: i64,
}

/// The views of a sequence of strings.
pub open spec fn strings_view(s: Seq<String>) -> Seq<Seq<char>> {
    s.map_values(|x: String| x@)
}

impl View for Configuration {
    type V = ConfigModel;

    open spec fn view(&self) -> ConfigModel {
        ConfigModel {
            flush_interval: self.flush_interval,
            hidden_applications: strings_view(self.hidden_applications@),
            min_session_duration: self.min_session_duration,
        }
    }
}

/// The configuration that a new manager starts with.
pub open spec fn default_config() -> ConfigModel {
    ConfigModel {
        flush_interval: 15,
        hidden_applications: Seq::empty(),
        min_session_duration: 5,
    }
}

impl Default for Configuration {
    fn default() -> (r: Self)
        ensures
            r@ == default_config(),
    {
        let r = Configuration {
            flush_interval: 15,
            hidden_applications: Vec::new(),
            min_session_duration: 5,
        };
        assert(r@.hidden_applications =~= Seq::<Seq<char>>::empty());
        r
    }
}

/// The state of a session manager, as a mathematical value.
pub struct ManagerModel {
    /// The session in progress, not yet saved.
    pub current: Option<SessionModel>,
    /// The current workspace.
    pub workspace: Option<i32>,
    /// The saved sessions.
    pub sessions: Seq<SessionModel>,
    /// The session to resume when the user comes back from idle.
    pub old_session: Option<SessionModel>,
    /// The time of the last automatic flush.
    pub last_flush: i64,
    /// The configuration.
    pub config: ConfigModel,
}

/// A manager that has seen no event yet.
pub open spec fn initial_model() -> ManagerModel {
    ManagerModel {
        current: None,
        workspace: None,
        sessions: Seq::empty(),
        old_session: None,
        last_flush: 0,
        config: default_config(),
    }
}

/// A session that starts and ends at `t`.
pub open spec fn fresh(t: i64, state: StateModel) -> SessionModel {
    SessionModel { start: t, end: t, state }
}

/// Sets the end of the current session, if any, to `now`.
pub open spec fn update_model(m: ManagerModel, now: i64) -> ManagerModel {
    match m.current {
        Some(c) => ManagerModel { current: Some(SessionModel { end: now, ..c }), ..m },
        None => m,
    }
}

/// Whether a session is too short to be saved under the configuration.
pub open spec fn too_short(c: SessionModel, config: ConfigModel) -> bool {
    config.min_session_duration != 0 && c.end - c.start < config.min_session_duration
}

/// Saves the current session: nothing happens without one or when it is too
/// short; it extends the last saved session when both have the same state;
/// otherwise it is appended.
pub open spec fn flush_model(m: ManagerModel) -> (ManagerModel, Response) {
    match m.current {
        None => (m, Response::Ignored),
        Some(c) => if too_short(c, m.config) {
            (m, Response::Ignored)
        } else if m.sessions.len() > 0 && m.sessions.last().state == c.state {
            (
                ManagerModel {
                    sessions: m.sessions.update(
                        m.sessions.len() - 1,
                        SessionModel { end: c.end, ..m.sessions.last() },
                    ),
                    ..m
                },
                Response::Flushed { merged: true },
            )
        } else {
            (ManagerModel { sessions: m.sessions.push(c), ..m }, Response::Flushed { merged: false })
        },
    }
}

/// Ends the current session at `now` and saves it.
pub open spec fn close_model(m: ManagerModel, now: i64) -> ManagerModel {
    flush_model(update_model(m, now)).0
}

/// Whether the application is hidden by the configuration.
pub open spec fn is_hidden(config: ConfigModel, app: Seq<char>) -> bool {
    config.hidden_applications.contains(app)
}

/// What the manager does with event `e` at time `now`: its next state and its response.
pub open spec fn event_model(m: ManagerModel, e: EventModel, now: i64) -> (ManagerModel, Response) {
    match e {
        EventModel::ActiveWindowChanged(a) => {
            if a is Some && is_hidden(m.config, a->0) {
                (m, Response::Ignored)
            } else {
                let state = match a {
                    Some(app) => StateModel::Active { app_id: app, workspace: m.workspace },
                    None => StateModel::Idle,
                };
                (
                    ManagerModel { current: Some(fresh(now, state)), ..close_model(m, now) },
                    Response::SessionCreated,
                )
            }
        },
        EventModel::WorkspaceChanged(id) => (
            ManagerModel { workspace: Some(id), ..m },
            Response::Handled,
        ),
        EventModel::Idle(idle) => {
            if idle {
                match m.current {
                    Some(c) => if c.state == StateModel::Idle {
                        (m, Response::Ignored)
                    } else {
                        (
                            ManagerModel {
                                current: Some(fresh(now, StateModel::Idle)),
                                old_session: Some(SessionModel { end: now, ..c }),
                                ..close_model(m, now)
                            },
                            Response::SessionIdled(true),
                        )
                    },
                    None => (
                        ManagerModel {
                            current: Some(fresh(now, StateModel::Idle)),
                            old_session: None,
                            ..m
                        },
                        Response::Handled,
                    ),
                }
            } else {
                match m.current {
                    Some(c) => if c.state == StateModel::Idle {
                        match m.old_session {
                            Some(o) => (
                                ManagerModel {
                                    current: Some(fresh(now, o.state)),
                                    old_session: None,
                                    ..close_model(m, now)
                                },
                                Response::SessionIdled(false),
                            ),
                            None => (
                                ManagerModel { current: None, ..close_model(m, now) },
                                Response::Handled,
                            ),
                        }
                    } else {
                        (m, Response::Ignored)
                    },
                    None => (m, Response::Ignored),
                }
            }
        },
        EventModel::Tick => match m.current {
            None => if now - m.last_flush >= m.config.flush_interval {
                (ManagerModel { last_flush: now, ..m }, Response::Ignored)
            } else {
                (m, Response::Ignored)
            },
            Some(_) => {
                let m1 = update_model(m, now);
                if now - m.last_flush >= m.config.flush_interval {
                    flush_model(ManagerModel { last_flush: now, ..m1 })
                } else {
                    (m1, Response::Handled)
                }
            },
        },
    }
}

/// No two neighbouring saved sessions have the same state.
pub open spec fn no_adjacent_repeats(s: Seq<SessionModel>) -> bool {
    forall|i: int| 0 <= i < s.len() - 1 ==> #[trigger] s[i].state != s[i + 1].state
}

/// `new` is `old` with at most one session appended, where only the end of
/// `old`'s last session may have moved.
pub open spec fn extends_history(old: Seq<SessionModel>, new: Seq<SessionModel>) -> bool {
    &&& old.len() <= new.len() <= old.len() + 1
    &&& forall|i: int| 0 <= i < old.len() - 1 ==> #[trigger] new[i] == old[i]
    &&& old.len() > 0 ==> {
        &&& new[old.len() - 1].start == old.last().start
        &&& new[old.len() - 1].state == old.last().state
    }
}

proof fn flush_history(m: ManagerModel)
    ensures
        extends_history(m.sessions, flush_model(m).0.sessions),
        no_adjacent_repeats(m.sessions) ==> no_adjacent_repeats(flush_model(m).0.sessions),
        flush_model(m).0.current == m.current,
        flush_model(m).0.old_session == m.old_session,
        flush_model(m).0.workspace == m.workspace,
        flush_model(m).0.last_flush == m.last_flush,
        flush_model(m).0.config == m.config,
{
    let r = flush_model(m).0.sessions;
    if no_adjacent_repeats(m.sessions) {
        assert forall|i: int| 0 <= i < r.len() - 1 implies #[trigger] r[i].state != r[i + 1].state by {
            if i < m.sessions.len() - 1 {
                assert(r[i].state == m.sessions[i].state);
                assert(r[i + 1].state == m.sessions[i + 1].state);
            }
        }
    }
}

/// Saving keeps the saved history free of neighbouring sessions with the
/// same state: equal states are merged, never stored side by side.
pub proof fn flush_keeps_states_distinct(m: ManagerModel)
    requires
        no_adjacent_repeats(m.sessions),
    ensures
        no_adjacent_repeats(flush_model(m).0.sessions),
{
    flush_history(m);
}

proof fn close_history(m: ManagerModel, now: i64)
    ensures
        extends_history(m.sessions, close_model(m, now).sessions),
        no_adjacent_repeats(m.sessions) ==> no_adjacent_repeats(close_model(m, now).sessions),
        close_model(m, now).workspace == m.workspace,
        close_model(m, now).last_flush == m.last_flush,
        close_model(m, now).config == m.config,
        close_model(m, now).old_session == m.old_session,
{
    flush_history(update_model(m, now));
}

/// Whatever event the manager handles, the saved sessions keep their
/// neighbouring states distinct.
pub proof fn event_keeps_states_distinct(m: ManagerModel, e: EventModel, now: i64)
    requires
        no_adjacent_repeats(m.sessions),
    ensures
        no_adjacent_repeats(event_model(m, e, now).0.sessions),
{
    event_history(m, e, now);
}

/// Handling an event saves at most one new session and never rewrites the
/// saved history: earlier sessions stay as they were, and the last one can
/// only have its end moved by a merge.
pub proof fn event_history(m: ManagerModel, e: EventModel, now: i64)
    ensures
        extends_history(m.sessions, event_model(m, e, now).0.sessions),
        no_adjacent_repeats(m.sessions) ==> no_adjacent_repeats(event_model(m, e, now).0.sessions),
        event_model(m, e, now).0.config == m.config,
{
    close_history(m, now);
    flush_history(update_model(m, now));
    flush_history(ManagerModel { last_flush: now, ..update_model(m, now) });
    assert(extends_history(m.sessions, m.sessions));
}

/// Flushing twice saves nothing more than flushing once.
pub proof fn flush_idempotent(m: ManagerModel)
    ensures
        flush_model(flush_model(m).0).0 == flush_model(m).0,
{
    let m1 = flush_model(m).0;
    match m.current {
        None => {},
        Some(c) => {
            if !too_short(c, m.config) {
                assert(m1.sessions.last() == SessionModel { end: c.end, ..m1.sessions.last() });
                assert(m1.sessions.update(m1.sessions.len() - 1, SessionModel { end: c.end, ..m1.sessions.last() }) =~= m1.sessions);
            }
        },
    }
}

/// A session is appended to the saved ones only when it lasted at least the
/// configured minimal duration (or that filter is off); a merge extends the
/// last saved session to the end of the current one and keeps its start.
pub proof fn saved_sessions_are_long_enough(m: ManagerModel)
    ensures
        flush_model(m).1 == (Response::Flushed { merged: false }) ==> {
            &&& m.current is Some
            &&& (m.config.min_session_duration == 0 || m.current->0.end - m.current->0.start
                >= m.config.min_session_duration)
            &&& flush_model(m).0.sessions == m.sessions.push(m.current->0)
        },
        flush_model(m).1 == (Response::Flushed { merged: true }) ==> {
            &&& m.current is Some
            &&& m.sessions.len() > 0
            &&& flush_model(m).0.sessions.len() == m.sessions.len()
            &&& flush_model(m).0.sessions.last().start == m.sessions.last().start
            &&& flush_model(m).0.sessions.last().end == m.current->0.end
            &&& flush_model(m).0.sessions.last().state == m.current->0.state
        },
{
}

/// A hidden application never starts a session: its focus event is
/// ignored and leaves the manager unchanged.
pub proof fn hidden_application_ignored(m: ManagerModel, app: Seq<char>, now: i64)
    requires
        is_hidden(m.config, app),
    ensures
        event_model(m, EventModel::ActiveWindowChanged(Some(app)), now) == (m, Response::Ignored),
{
}

/// Going idle and coming back resumes the session that was in progress:
/// the manager answers `SessionIdled(true)` then `SessionIdled(false)`, and
/// the resumed session has the state it had, starting when the user came back.
pub proof fn idle_round_trip(m: ManagerModel, t1: i64, t2: i64)
    requires
        m.current is Some,
        m.current->0.state != StateModel::Idle,
    ensures
        ({
            let (m1, r1) = event_model(m, EventModel::Idle(true), t1);
            let (m2, r2) = event_model(m1, EventModel::Idle(false), t2);
            &&& r1 == Response::SessionIdled(true)
            &&& r2 == Response::SessionIdled(false)
            &&& m2.current == Some(fresh(t2, m.current->0.state))
            &&& m2.old_session is None
        }),
{
}

/// A tick is due when the flush interval has passed since the last
/// automatic flush; the time of the last automatic flush then moves to that
/// tick. A due tick saves the session in progress; without one, a tick
/// changes nothing else and is ignored.
pub proof fn tick_flush_timing(m: ManagerModel, now: i64)
    ensures
        ({
            let (m1, r) = event_model(m, EventModel::Tick, now);
            &&& m.current is None && now - m.last_flush >= m.config.flush_interval ==> m1 == (
                ManagerModel { last_flush: now, ..m }) && r == Response::Ignored
            &&& m.current is None && now - m.last_flush < m.config.flush_interval ==> m1 == m && r
                == Response::Ignored
            &&& m.current is Some && now - m.last_flush >= m.config.flush_interval ==> m1.last_flush == now
                && r == flush_model(ManagerModel { last_flush: now, ..update_model(m, now) }).1
            &&& m.current is Some && now - m.last_flush < m.config.flush_interval ==> m1.last_flush == m.last_flush
                && r == Response::Handled && m1.sessions == m.sessions
        }),
{
}

/// The manager's sessions lie in time before `t`: each starts no later than
/// it ends and ends no later than `t`, and no saved session starts after
/// the one in progress.
pub open spec fn times_ordered(m: ManagerModel, t: i64) -> bool {
    &&& forall|i: int|
        0 <= i < m.sessions.len() ==> #[trigger] m.sessions[i].start <= m.sessions[i].end <= t
    &&& m.current matches Some(c) ==> {
        &&& c.start <= c.end <= t
        &&& forall|i: int| 0 <= i < m.sessions.len() ==> #[trigger] m.sessions[i].start <= c.start
    }
    &&& m.old_session matches Some(o) ==> o.start <= o.end <= t
}

/// A new manager holds no session, so its sessions lie in time.
pub proof fn new_manager_times_ordered(t: i64)
    ensures
        times_ordered(initial_model(), t),
{
}

/// Ending the current session at a time no earlier than any before keeps
/// the sessions in time.
pub proof fn update_keeps_times_ordered(m: ManagerModel, t: i64, now: i64)
    requires
        times_ordered(m, t),
        t <= now,
    ensures
        times_ordered(update_model(m, now), now),
{
}

/// Saving keeps the sessions in time: a saved session never ends before it
/// starts, merged or appended.
pub proof fn flush_keeps_times_ordered(m: ManagerModel, t: i64)
    requires
        times_ordered(m, t),
    ensures
        times_ordered(flush_model(m).0, t),
{
    let r = flush_model(m).0;
    match m.current {
        None => {},
        Some(c) => {
            if !too_short(c, m.config) && m.sessions.len() > 0 && m.sessions.last().state == c.state {
                let n = m.sessions.len() - 1;
                assert(m.sessions[n].start <= c.start);
                assert forall|i: int| 0 <= i < r.sessions.len() implies #[trigger] r.sessions[i].start
                    <= r.sessions[i].end <= t by {
                    if i < n {
                        assert(r.sessions[i] == m.sessions[i]);
                    }
                }
                assert forall|i: int| 0 <= i < r.sessions.len() implies #[trigger] r.sessions[i].start
                    <= c.start by {
                    if i < n {
                        assert(r.sessions[i] == m.sessions[i]);
                    }
                }
            } else if !too_short(c, m.config) {
                assert forall|i: int| 0 <= i < r.sessions.len() implies #[trigger] r.sessions[i].start
                    <= r.sessions[i].end <= t by {
                    if i < m.sessions.len() {
                        assert(r.sessions[i] == m.sessions[i]);
                    }
                }
                assert forall|i: int| 0 <= i < r.sessions.len() implies #[trigger] r.sessions[i].start
                    <= c.start by {
                    if i < m.sessions.len() {
                        assert(r.sessions[i] == m.sessions[i]);
                    }
                }
            }
        },
    }
}

/// While the clock never goes back, every event keeps the sessions in time:
/// no saved session ends before it starts, nor after the latest reading.
pub proof fn event_keeps_times_ordered(m: ManagerModel, e: EventModel, t: i64, now: i64)
    requires
        times_ordered(m, t),
        t <= now,
    ensures
        times_ordered(event_model(m, e, now).0, now),
{
    let u = update_model(m, now);
    update_keeps_times_ordered(m, t, now);
    flush_keeps_times_ordered(u, now);
    flush_keeps_times_ordered(ManagerModel { last_flush: now, ..u }, now);
    flush_history(u);
    let c = close_model(m, now);
    assert(c == flush_model(u).0);
    assert forall|i: int| 0 <= i < c.sessions.len() implies #[trigger] c.sessions[i].start <= now by {
        assert(c.sessions[i].start <= c.sessions[i].end);
    }
    if let Some(o) = m.current {
        assert(o.start <= now);
    }
}

/// One call on a manager, as a mathematical value.
pub enum ManagerStep {
    /// `handle_event`, the clock reading the given time.
    Event(EventModel, i64),
    /// `update`, the clock reading the given time.
    Update(i64),
    /// `flush`.
    Flush,
    /// `set_config` with the given configuration.
    SetConfig(ConfigModel),
}

/// What one call does to a manager.
pub open spec fn apply_step(m: ManagerModel, step: ManagerStep) -> ManagerModel {
    match step {
        ManagerStep::Event(e, now) => event_model(m, e, now).0,
        ManagerStep::Update(now) => update_model(m, now),
        ManagerStep::Flush => flush_model(m).0,
        ManagerStep::SetConfig(c) => ManagerModel { config: c, ..m },
    }
}

/// The manager after the calls `steps`, in order, starting from `m`.
pub open spec fn run_steps(m: ManagerModel, steps: Seq<ManagerStep>) -> ManagerModel
    decreases steps.len(),
{
    if steps.len() == 0 {
        m
    } else {
        apply_step(run_steps(m, steps.drop_last()), steps.last())
    }
}

/// The clock reading of a call, for the calls that read the clock.
pub open spec fn step_time(step: ManagerStep) -> Option<i64> {
    match step {
        ManagerStep::Event(_, now) => Some(now),
        ManagerStep::Update(now) => Some(now),
        _ => None,
    }
}

/// Whether the clock never goes back from one call to a later one.
pub open spec fn clock_never_goes_back(steps: Seq<ManagerStep>) -> bool {
    forall|i: int, j: int|
        0 <= i < j < steps.len() && (#[trigger] step_time(steps[i])) is Some && (#[trigger] step_time(
            steps[j],
        )) is Some ==> step_time(steps[i])->0 <= step_time(steps[j])->0
}

/// The latest clock reading among the calls, or the least `i64` without one.
spec fn latest_time(steps: Seq<ManagerStep>) -> i64
    decreases steps.len(),
{
    if steps.len() == 0 {
        i64::MIN
    } else {
        match step_time(steps.last()) {
            Some(t) => t,
            None => latest_time(steps.drop_last()),
        }
    }
}

proof fn lemma_latest_time(steps: Seq<ManagerStep>)
    ensures
        latest_time(steps) == i64::MIN || exists|i: int|
            0 <= i < steps.len() && #[trigger] step_time(steps[i]) == Some(latest_time(steps)),
    decreases steps.len(),
{
    if steps.len() > 0 {
        let p = steps.drop_last();
        lemma_latest_time(p);
        if step_time(steps.last()) is None && latest_time(p) != i64::MIN {
            let i = choose|i: int| 0 <= i < p.len() && #[trigger] step_time(p[i]) == Some(latest_time(p));
            assert(steps[i] == p[i]);
        } else if step_time(steps.last()) is Some {
            assert(step_time(steps[steps.len() - 1]) == Some(latest_time(steps)));
        }
    }
}

proof fn lemma_run_invariants(steps: Seq<ManagerStep>)
    ensures
        no_adjacent_repeats(run_steps(initial_model(), steps).sessions),
        clock_never_goes_back(steps) ==> times_ordered(
            run_steps(initial_model(), steps),
            latest_time(steps),
        ),
    decreases steps.len(),
{
    if steps.len() > 0 {
        let p = steps.drop_last();
        let m = run_steps(initial_model(), p);
        lemma_run_invariants(p);
        match steps.last() {
            ManagerStep::Event(e, now) => {
                event_keeps_states_distinct(m, e, now);
            },
            ManagerStep::Flush => {
                flush_keeps_states_distinct(m);
            },
            _ => {},
        }
        if clock_never_goes_back(steps) {
            assert(clock_never_goes_back(p)) by {
                assert forall|i: int, j: int|
                    0 <= i < j < p.len() && (#[trigger] step_time(p[i])) is Some && (
                    #[trigger] step_time(p[j])) is Some implies step_time(p[i])->0 <= step_time(
                    p[j],
                )->0 by {
                    assert(p[i] == steps[i] && p[j] == steps[j]);
                }
            }
            lemma_latest_time(p);
            let t = latest_time(p);
            match steps.last() {
                ManagerStep::Event(e, now) => {
                    if t != i64::MIN {
                        let i = choose|i: int|
                            0 <= i < p.len() && #[trigger] step_time(p[i]) == Some(t);
                        assert(p[i] == steps[i]);
                        assert(step_time(steps[steps.len() - 1]) == Some(now));
                    }
                    event_keeps_times_ordered(m, e, t, now);
                },
                ManagerStep::Update(now) => {
                    if t != i64::MIN {
                        let i = choose|i: int|
                            0 <= i < p.len() && #[trigger] step_time(p[i]) == Some(t);
                        assert(p[i] == steps[i]);
                        assert(step_time(steps[steps.len() - 1]) == Some(now));
                    }
                    update_keeps_times_ordered(m, t, now);
                },
                ManagerStep::Flush => {
                    flush_keeps_times_ordered(m, t);
                },
                ManagerStep::SetConfig(_) => {},
            }
        }
    }
}

/// Whatever calls are made on a new manager, its saved sessions never hold
/// two neighbouring sessions with the same state; and while the clock never
/// goes back, no saved session ends before it starts.
pub proof fn reachable_manager_invariants(steps: Seq<ManagerStep>)
    ensures
        no_adjacent_repeats(run_steps(initial_model(), steps).sessions),
        clock_never_goes_back(steps) ==> forall|i: int|
            0 <= i < run_steps(initial_model(), steps).sessions.len() ==> #[trigger] run_steps(
                initial_model(),
                steps,
            ).sessions[i].start <= run_steps(initial_model(), steps).sessions[i].end,
{
    lemma_run_invariants(steps);
}

/// A workspace change always takes effect, whatever the manager's state:
/// afterwards the manager's workspace is the new one and nothing else has
/// changed, and an application focused next starts a session on that
/// workspace.
pub proof fn workspace_change_takes_effect(
    m: ManagerModel,
    id: i32,
    t1: i64,
    app: Seq<char>,
    t2: i64,
)
    requires
        !is_hidden(m.config, app),
    ensures
        ({
            let (m1, r1) = event_model(m, EventModel::WorkspaceChanged(id), t1);
            &&& r1 == Response::Handled
            &&& m1.workspace == Some(id)
            &&& m1.current == m.current
            &&& m1.sessions == m.sessions
            &&& m1.old_session == m.old_session
            &&& m1.last_flush == m.last_flush
            &&& m1.config == m.config
            &&& event_model(m1, EventModel::ActiveWindowChanged(Some(app)), t2).0.current == Some(
                SessionModel {
                    start: t2,
                    end: t2,
                    state: StateModel::Active { app_id: app, workspace: Some(id) },
                },
            )
        }),
{
}

/// Handles [`Event`]s and manages [`Session`]s.
pub struct SessionManager<C: Clock> {
    current: Option<Session>,
    workspace: Option<i32>,
    clock: C,
    sessions: Vec<Session>,
    old_session: Option<Session>,
    last_flush: i64,
    config: Configuration,
}

impl<C: Clock> View for SessionManager<C> {
    type V = ManagerModel;

    closed spec fn view(&self) -> ManagerModel {
        ManagerModel {
            current: opt_session_view(self.current),
            workspace: self.workspace,
            sessions: sessions_view(self.sessions@),
            old_session: opt_session_view(self.old_session),
            last_flush: self.last_flush,
            config: self.config@,
        }
    }
}

impl<C: Clock> SessionManager<C> {
    /// Creates a manager that reads the time from `clock`.
    pub fn new(clock: C) -> (r: Self)
        ensures
            r@ == initial_model(),
    {
        let r = SessionManager {
            clock,
            workspace: None,
            old_session: None,
            current: None,
            sessions: Vec::new(),
            last_flush: 0,
            config: Configuration::default(),
        };
        assert(r@.sessions =~= Seq::<SessionModel>::empty());
        r
    }

    /// Whether `app` is one of the hidden applications.
    fn hides(&self, app: &String) -> (r: bool)
        ensures
            r == is_hidden(self@.config, app@),
    {
        let hidden = &self.config.hidden_applications;
        let mut i: usize = 0;
        while i < hidden.len()
            invariant
                i <= hidden@.len(),
                hidden == self.config.hidden_applications,
                forall|j: int| 0 <= j < i ==> hidden@[j]@ != app@,
            decreases hidden@.len() - i,
        {
            if hidden[i] == *app {
                assert(strings_view(hidden@)[i as int] == app@);
                return true;
            }
            i = i + 1;
        }
        assert(!strings_view(hidden@).contains(app@)) by {
            if strings_view(hidden@).contains(app@) {
                let k = choose|k: int| 0 <= k < strings_view(hidden@).len() && strings_view(hidden@)[k] == app@;
                assert(hidden@[k]@ == app@);
            }
        }
        false
    }

    /// Sets the end of the current session, if any, to `now`.
    pub fn update_at(&mut self, now: i64)
        ensures
            final(self)@ == update_model(old(self)@, now),
    {
        match &mut self.current {
            Some(c) => {
                c.end = now;
            },
            None => {},
        }
    }

    /// Sets the end of the current session, if any, to the clock's time.
    ///
    /// Call it before [`Self::flush`] so that the saved session ends now.
    pub fn update(&mut self)
        ensures
            exists|now: i64| final(self)@ == update_model(old(self)@, now),
    {
        let now = self.clock.now();
        self.update_at(now);
    }

    /// Saves the current session into the saved sessions.
    ///
    /// Consecutive sessions with the same [`State`] are merged, and sessions
    /// shorter than the configured minimal duration are not saved.
    pub fn flush(&mut self) -> (r: Response)
        ensures
            final(self)@ == flush_model(old(self)@).0,
            r == flush_model(old(self)@).1,
    {
        let ghost m = self@;
        match &self.current {
            None => Response::Ignored,
            Some(c) => {
                let min = self.config.min_session_duration;
                if min != 0 && (c.end as i128) - (c.start as i128) < (min as i128) {
                    return Response::Ignored;
                }
                let n = self.sessions.len();
                if n > 0 && self.sessions[n - 1].state.same_as(&c.state) {
                    let end = c.end;
                    let mut last = self.sessions.pop().unwrap();
                    last.end = end;
                    self.sessions.push(last);
                    assert(self@.sessions =~= m.sessions.update(
                        m.sessions.len() - 1,
                        SessionModel { end: end, ..m.sessions.last() },
                    ));
                    Response::Flushed { merged: true }
                } else {
                    let s = c.duplicate();
                    self.sessions.push(s);
                    assert(self@.sessions =~= m.sessions.push(s@));
                    Response::Flushed { merged: false }
                }
            },
        }
    }

    /// Ends the current session at `now` and saves it.
    fn close_at(&mut self, now: i64)
        ensures
            final(self)@ == close_model(old(self)@, now),
    {
        self.update_at(now);
        self.flush();
    }

    /// Handles `event` as happening at time `now`.
    ///
    /// - [`Event::ActiveWindowChanged`]: [`Response::SessionCreated`] after the
    ///   current session was ended and saved, or [`Response::Ignored`] for a hidden application;
    /// - [`Event::WorkspaceChanged`]: [`Response::Handled`];
    /// - [`Event::Idle`]: [`Response::SessionIdled`], [`Response::Handled`] when
    ///   there was no session to save or to resume, or [`Response::Ignored`]
    ///   when the user already was (or was not) idle;
    /// - [`Event::Tick`]: [`Response::Handled`], [`Response::Ignored`] without a
    ///   session, or the flush's response when the flush interval has passed;
    ///   a tick past the flush interval moves the time of the last automatic
    ///   flush to `now`, with or without a session.
    pub fn handle_event_at(&mut self, event: Event, now: i64) -> (r: Response)
        ensures
            final(self)@ == event_model(old(self)@, event@, now).0,
            r == event_model(old(self)@, event@, now).1,
    {
        match event {
            Event::ActiveWindowChanged(a) => {
                match &a {
                    Some(app) => {
                        if self.hides(app) {
                            return Response::Ignored;
                        }
                    },
                    None => {},
                }
                self.close_at(now);
                let state = match a {
                    Some(app_id) => State::Active { app_id, workspace: self.workspace },
                    None => State::Idle,
                };
                self.current = Some(Session { start: now, end: now, state });
                Response::SessionCreated
            },
            Event::WorkspaceChanged(id) => {
                self.workspace = Some(id);
                Response::Handled
            },
            Event::Idle(idle) => {
                if idle {
                    let was = match &self.current {
                        Some(c) => {
                            if c.state.is_idle() {
                                return Response::Ignored;
                            }
                            let mut o = c.duplicate();
                            o.end = now;
                            Some(o)
                        },
                        None => None,
                    };
                    let resp = match was {
                        Some(o) => {
                            self.close_at(now);
                            self.old_session = Some(o);
                            Response::SessionIdled(true)
                        },
                        None => {
                            self.old_session = None;
                            Response::Handled
                        },
                    };
                    self.current = Some(Session { start: now, end: now, state: State::Idle });
                    resp
                } else {
                    let idle_now = match &self.current {
                        Some(c) => c.state.is_idle(),
                        None => false,
                    };
                    if !idle_now {
                        return Response::Ignored;
                    }
                    self.close_at(now);
                    match self.old_session.take() {
                        Some(o) => {
                            self.current = Some(Session { start: now, end: now, state: o.state });
                            Response::SessionIdled(false)
                        },
                        None => {
                            self.current = None;
                            Response::Handled
                        },
                    }
                }
            },
            Event::Tick => {
                let due = (now as i128) - (self.last_flush as i128) >= (
                self.config.flush_interval as i128);
                if self.current.is_none() {
                    if due {
                        self.last_flush = now;
                    }
                    return Response::Ignored;
                }
                self.update_at(now);
                if due {
                    self.last_flush = now;
                    self.flush()
                } else {
                    Response::Handled
                }
            },
        }
    }

    /// Handles `event` at the clock's current time.
    ///
    /// See [`Self::handle_event_at`] for the responses.
    pub fn handle_event(&mut self, event: Event) -> (r: Response)
        ensures
            exists|now: i64|
                final(self)@ == event_model(old(self)@, event@, now).0
                    && r == event_model(old(self)@, event@, now).1,
    {
        let now = self.clock.now();
        self.handle_event_at(event, now)
    }

    /// The configuration in use.
    pub fn config(&self) -> (r: &Configuration)
        ensures
            r@ == self@.config,
    {
        &self.config
    }

    /// Replaces the configuration.
    pub fn set_config(&mut self, config: Configuration)
        ensures
            final(self)@ == (ManagerModel { config: config@, ..old(self)@ }),
    {
        self.config = config;
    }

    /// The saved sessions (the current one is not among them until it is flushed).
    pub fn sessions(&self) -> (r: &Vec<Session>)
        ensures
            sessions_view(r@) == self@.sessions,
    {
        &self.sessions
    }
}

} // verus!
