use spyland::manager::{Clock, Configuration, Response, SessionManager};
use spyland::session::{Event, State};
use std::cell::RefCell;
use std::rc::Rc;

#[derive(Clone, Copy)]
struct FakeClock {
    now: i64,
}

#[derive(Clone)]
struct SharedClock(Rc<RefCell<FakeClock>>);

impl Clock for SharedClock {
    fn now(&self) -> i64 {
        self.0.borrow().now
    }
}

struct TestDriver {
    mgr: SessionManager<SharedClock>,
    clock: SharedClock,
}

impl TestDriver {
    /// A manager that keeps sessions of any length.
    fn new() -> Self {
        let mut d = Self::with_defaults();
        d.mgr.set_config(Configuration {
            min_session_duration: 0,
            ..Default::default()
        });
        d
    }

    /// A manager with the default configuration.
    fn with_defaults() -> Self {
        let clock = SharedClock(Rc::new(RefCell::new(FakeClock { now: 1 })));
        let mgr = SessionManager::new(clock.clone());
        Self { mgr, clock }
    }

    fn tick(&mut self, t: i64) {
        self.clock.0.borrow_mut().now = t;
        self.mgr.handle_event(Event::Tick);
    }

    fn advance(&mut self, t: i64) {
        self.clock.0.borrow_mut().now += t;
        self.mgr.handle_event(Event::Tick);
    }

    fn event(&mut self, ev: Event) -> Response {
        self.mgr.handle_event(ev)
    }

    fn flush(&mut self) {
        self.mgr.flush();
    }

    fn update_and_flush(&mut self) {
        self.mgr.update();
        self.mgr.flush();
    }
}

#[test]
fn flush_interval_test() {
    let mut d = TestDriver::new();
    const FLUSH_INTERVAL: i64 = 5;

    d.mgr.set_config(Configuration {
        flush_interval: FLUSH_INTERVAL,
        min_session_duration: 0,
        ..Default::default()
    });

    d.event(Event::ActiveWindowChanged(Some("alacritty".into())));
    d.tick(FLUSH_INTERVAL);

    assert_eq!(d.mgr.sessions().len(), 1);
}

#[test]
fn hidden_applications_test() {
    let mut d = TestDriver::new();

    const APP_ID: &str = "Terraria.bin.x86_64";

    d.mgr.set_config(Configuration {
        hidden_applications: vec![APP_ID.into()],
        ..Default::default()
    });

    d.event(Event::ActiveWindowChanged(Some(APP_ID.into())));
    d.tick(999999);

    d.flush();

    assert_eq!(d.mgr.sessions().len(), 0);
}

#[test]
fn min_session_duration_test() {
    let mut d = TestDriver::new();

    d.mgr.set_config(Configuration {
        min_session_duration: 10,
        ..Default::default()
    });

    d.event(Event::ActiveWindowChanged(Some("firefox".into())));
    d.advance(20);
    d.flush();
    assert_eq!(d.mgr.sessions().len(), 1);

    d.event(Event::ActiveWindowChanged(Some("zen".into())));
    d.advance(5);
    d.flush();
    assert_eq!(d.mgr.sessions().len(), 1);
}

#[test]
fn event_active_window_responses() {
    let mut d = TestDriver::new();

    let r = d.event(Event::ActiveWindowChanged(Some("kitty".to_string())));
    assert_eq!(r, Response::SessionCreated, "Response was not Handled");
    d.advance(5);
    d.flush();
    assert_eq!(
        d.mgr.sessions().len(),
        1,
        "Response received invalid information: Expected session to be saved"
    );

    const HIDDEN_APP_ID: &str = "firefox";

    d.mgr.set_config(Configuration {
        hidden_applications: vec![HIDDEN_APP_ID.into()],
        ..Default::default()
    });

    let r = d.event(Event::ActiveWindowChanged(Some(HIDDEN_APP_ID.into())));
    assert_eq!(r, Response::Ignored, "Expected response to be Ignored");
    d.advance(5);
    d.flush();
    assert_eq!(
        d.mgr.sessions().len(),
        1,
        "Response received invalid information: Expected session to be ignored"
    );
}

#[test]
fn event_workspace_response() {
    let mut d = TestDriver::new();

    const WORKSPACE: i32 = 1;

    let r = d.event(Event::WorkspaceChanged(WORKSPACE));
    assert_eq!(r, Response::Handled, "Response was not Handled");

    const APP_ID: &str = "discord";

    d.event(Event::ActiveWindowChanged(Some(APP_ID.into())));
    d.advance(5);
    d.flush();

    assert_eq!(d.mgr.sessions().len(), 1, "Failed to save session");
    match &d.mgr.sessions()[0].state {
        State::Active { app_id, workspace } => {
            assert_eq!(app_id, APP_ID);
            assert_eq!(workspace.expect("Workspace was None"), WORKSPACE);
        }
        _ => panic!("Unexpected state"),
    };
}

#[test]
fn event_idle_responses() {
    let mut d = TestDriver::new();

    let r = d.event(Event::Idle(true));
    assert_eq!(r, Response::Handled, "Expected Handled response");
    d.advance(5);
    d.flush();

    assert_eq!(d.mgr.sessions().len(), 1, "Session was not created");
    assert_eq!(
        d.mgr.sessions()[0].state,
        State::Idle,
        "Session is not idle"
    );

    let r = d.event(Event::Idle(true));
    assert_eq!(r, Response::Ignored, "Expected response to be Ignored");

    let r = d.event(Event::Idle(false));
    assert_eq!(r, Response::Handled, "Expected Handled response");
}

#[test]
fn event_idle_sessions_responses() {
    let mut d = TestDriver::new();

    d.event(Event::ActiveWindowChanged(Some("steam".into())));
    d.advance(5);
    d.flush();

    let r = d.event(Event::Idle(true));
    assert_eq!(
        r,
        Response::SessionIdled(true),
        "Expected response to be Idled"
    );

    let r = d.event(Event::Idle(false));
    assert_eq!(
        r,
        Response::SessionIdled(false),
        "Expected response to be Unidled"
    );
}

#[test]
fn event_tick_responses() {
    let mut d = TestDriver::new();

    let r = d.event(Event::Tick);
    assert_eq!(r, Response::Ignored, "Expected response to be Ignored");

    d.event(Event::ActiveWindowChanged(Some("kitty".into())));
    let r = d.event(Event::Tick);
    assert_eq!(r, Response::Handled, "Expected response to be Handled");
}

#[test]
fn session_time_test() {
    let mut d = TestDriver::with_defaults();

    const TIME: i64 = 30;

    d.event(Event::ActiveWindowChanged(Some("firefox".into())));
    d.tick(TIME);

    assert_eq!(d.mgr.sessions()[0].start, 1, "Incorrect start time");
    assert_eq!(d.mgr.sessions()[0].end, TIME, "Incorrect end time");
}

#[test]
fn end_time_test() {
    let mut d = TestDriver::with_defaults();

    const TIME: i64 = 30;

    d.event(Event::WorkspaceChanged(0));
    d.event(Event::ActiveWindowChanged(Some("firefox".into())));
    d.tick(TIME);

    assert_eq!(d.mgr.sessions()[0].end, TIME, "Incorrect end time");
}

#[test]
fn auto_flush_test() {
    let mut d = TestDriver::with_defaults();

    d.event(Event::ActiveWindowChanged(Some("alacritty".into())));
    let interval = d.mgr.config().flush_interval;
    d.tick(interval);

    assert_eq!(d.mgr.sessions().len(), 1, "Not one session");
}

#[test]
fn multiple_sessions_test() {
    let mut d = TestDriver::with_defaults();

    d.event(Event::ActiveWindowChanged(Some("firefox".into())));
    d.advance(10);

    d.event(Event::ActiveWindowChanged(Some("kitty".into())));
    d.advance(10);

    d.event(Event::ActiveWindowChanged(Some("alacritty".into())));
    d.advance(10);

    d.update_and_flush();

    let sessions = d.mgr.sessions();

    assert_eq!(sessions.len(), 3);
}

#[test]
fn direct_idle_test() {
    let mut d = TestDriver::with_defaults();

    d.event(Event::Idle(true));
    d.advance(5);

    d.update_and_flush();

    let sessions = d.mgr.sessions();

    assert_eq!(sessions.len(), 1);
    assert_eq!(sessions[0].state, State::Idle);
}

#[test]
fn unidle_test() {
    let mut d = TestDriver::with_defaults();

    d.event(Event::ActiveWindowChanged(Some(
        "Terraria.bin.x86_64".into(),
    )));
    d.advance(5);

    d.event(Event::Idle(true));
    d.advance(5);

    d.event(Event::Idle(false));
    d.advance(5);

    d.update_and_flush();

    let sessions = d.mgr.sessions();

    assert_eq!(sessions.len(), 3);
    assert_eq!(sessions[0].state, sessions[2].state);
    assert_eq!(sessions[2].start, 11, "utc_start not matching");
    assert_eq!(sessions[2].end, 16, "utc_end not matching");
}

#[test]
fn session_merge_test() {
    let mut d = TestDriver::with_defaults();
    let flush_interval = d.mgr.config().flush_interval;

    d.event(Event::ActiveWindowChanged(Some(
        "org.telegram.desktop".into(),
    )));
    d.tick(1);

    for i in 1..4 {
        d.advance(flush_interval);
        d.update_and_flush();

        let sessions = d.mgr.sessions();

        assert_eq!(sessions.len(), 1, "not one session");
        assert_eq!(sessions[0].start, 1, "invalid utc_start");
        assert_eq!(
            sessions[0].end,
            1 + flush_interval * i,
            "invalid utc_end"
        );
    }
}

// Properties of the manager on concrete values.

#[test]
fn default_configuration_values() {
    let c = Configuration::default();
    assert_eq!(c.flush_interval, 15);
    assert!(c.hidden_applications.is_empty());
    assert_eq!(c.min_session_duration, 5);
}

#[test]
fn neighbouring_sessions_never_share_a_state() {
    let mut d = TestDriver::new();
    for app in ["a", "a", "b", "b", "a"] {
        d.event(Event::ActiveWindowChanged(Some(app.into())));
        d.advance(3);
        d.flush();
    }
    let s = d.mgr.sessions();
    assert_eq!(s.len(), 3);
    for w in s.windows(2) {
        assert_ne!(w[0].state, w[1].state);
    }
}

#[test]
fn flush_twice_saves_once() {
    let mut d = TestDriver::new();
    d.event(Event::ActiveWindowChanged(Some("kitty".into())));
    d.advance(7);
    assert_eq!(d.mgr.flush(), Response::Flushed { merged: false });
    assert_eq!(d.mgr.flush(), Response::Flushed { merged: true });
    assert_eq!(d.mgr.sessions().len(), 1);
    assert_eq!(d.mgr.sessions()[0].end, 8);
}

#[test]
fn flush_without_session_is_ignored() {
    let mut d = TestDriver::new();
    assert_eq!(d.mgr.flush(), Response::Ignored);
    assert!(d.mgr.sessions().is_empty());
}

#[test]
fn short_session_is_not_saved() {
    let mut d = TestDriver::with_defaults();
    d.event(Event::ActiveWindowChanged(Some("kitty".into())));
    d.advance(4);
    assert_eq!(d.mgr.flush(), Response::Ignored);
    d.advance(1);
    assert_eq!(d.mgr.flush(), Response::Flushed { merged: false });
}

#[test]
fn idle_then_back_resumes_the_application() {
    let mut d = TestDriver::new();
    d.event(Event::WorkspaceChanged(2));
    d.event(Event::ActiveWindowChanged(Some("steam".into())));
    d.advance(5);
    assert_eq!(d.event(Event::Idle(true)), Response::SessionIdled(true));
    d.advance(5);
    assert_eq!(d.event(Event::Idle(false)), Response::SessionIdled(false));
    d.advance(5);
    d.mgr.update();
    d.flush();
    let s = d.mgr.sessions();
    assert_eq!(s.len(), 3);
    assert_eq!(s[1].state, State::Idle);
    assert_eq!((s[1].start, s[1].end), (6, 11));
    assert_eq!(
        s[2].state,
        State::Active { app_id: "steam".into(), workspace: Some(2) }
    );
    assert_eq!((s[2].start, s[2].end), (11, 16));
}

#[test]
fn tick_flushes_after_interval() {
    let mut d = TestDriver::new();
    d.event(Event::ActiveWindowChanged(Some("kitty".into())));
    d.tick(14);
    assert!(d.mgr.sessions().is_empty());
    assert_eq!(d.event(Event::Tick), Response::Handled);
    d.clock.0.borrow_mut().now = 15;
    assert_eq!(d.event(Event::Tick), Response::Flushed { merged: false });
    assert_eq!(d.mgr.sessions()[0].end, 15);
}

#[test]
fn handle_event_at_uses_the_given_time() {
    let mut d = TestDriver::new();
    d.mgr.handle_event_at(Event::ActiveWindowChanged(Some("x".into())), 100);
    d.mgr.update_at(130);
    assert_eq!(d.mgr.flush(), Response::Flushed { merged: false });
    assert_eq!((d.mgr.sessions()[0].start, d.mgr.sessions()[0].end), (100, 130));
}

// A session is saved only when a flush happens and the session lasts at
// least the minimal duration, which is 5 by default. A session whose focus
// event and flush share one clock reading therefore lasts 0 and is not saved
// under the default configuration; a tick before the flush interval has
// passed saves nothing either. The tests below take the same steps twice:
// under the default configuration, where nothing is saved, and with the
// minimal duration set to 0, where the one session is saved with its data.

#[test]
fn first_tick_within_interval_saves_nothing() {
    let mut d = TestDriver::with_defaults();
    d.event(Event::WorkspaceChanged(0));
    d.event(Event::ActiveWindowChanged(Some("firefox".into())));
    d.tick(1);
    assert_eq!(d.mgr.sessions().len(), 0);

    let mut d = TestDriver::new();
    d.event(Event::WorkspaceChanged(0));
    d.event(Event::ActiveWindowChanged(Some("firefox".into())));
    d.tick(1);
    assert_eq!(d.mgr.sessions().len(), 0);
    d.tick(15);
    assert_eq!(d.mgr.sessions().len(), 1);
}

#[test]
fn zero_length_session_is_kept_only_without_minimum() {
    let mut d = TestDriver::with_defaults();
    d.event(Event::ActiveWindowChanged(Some("firefox".into())));
    d.update_and_flush();
    assert_eq!(d.mgr.sessions().len(), 0);

    let mut d = TestDriver::new();
    d.event(Event::ActiveWindowChanged(Some("firefox".into())));
    d.update_and_flush();
    assert_eq!(d.mgr.sessions().len(), 1, "Less then one sessions");
}

#[test]
fn zero_length_session_keeps_its_data_without_minimum() {
    const WORKSPACE: i32 = 1;
    const APP_ID: &str = "firefox";

    let mut d = TestDriver::with_defaults();
    d.event(Event::WorkspaceChanged(WORKSPACE));
    d.event(Event::ActiveWindowChanged(Some(APP_ID.into())));
    d.update_and_flush();
    assert!(d.mgr.sessions().is_empty());

    let mut d = TestDriver::new();
    d.event(Event::WorkspaceChanged(WORKSPACE));
    d.event(Event::ActiveWindowChanged(Some(APP_ID.into())));
    d.update_and_flush();
    match &d.mgr.sessions()[0].state {
        State::Active { app_id, workspace } => {
            assert_eq!(APP_ID, app_id, "app_id not matching");
            assert_eq!(WORKSPACE, workspace.expect("workspace is none"), "workspace not matching");
        }
        _ => panic!("Incorrect state"),
    }

    let mut d = TestDriver::new();
    d.event(Event::ActiveWindowChanged(None));
    d.update_and_flush();
    assert_eq!(d.mgr.sessions()[0].state, State::Idle);
}

#[test]
fn due_tick_without_session_restarts_the_interval() {
    let mut d = TestDriver::new();
    d.mgr.set_config(Configuration { flush_interval: 10, min_session_duration: 0, ..Default::default() });
    // Due (20 - 0 >= 10): ignored, but the next automatic flush waits for 30.
    assert_eq!(d.mgr.handle_event_at(Event::Tick, 20), Response::Ignored);
    d.mgr.handle_event_at(Event::ActiveWindowChanged(Some("kitty".into())), 21);
    assert_eq!(d.mgr.handle_event_at(Event::Tick, 25), Response::Handled);
    assert!(d.mgr.sessions().is_empty());
    assert_eq!(d.mgr.handle_event_at(Event::Tick, 30), Response::Flushed { merged: false });
    assert_eq!(d.mgr.sessions()[0].end, 30);

    // Not due (5 - 0 < 10): ignored, and the interval still counts from 0.
    let mut d = TestDriver::new();
    d.mgr.set_config(Configuration { flush_interval: 10, min_session_duration: 0, ..Default::default() });
    assert_eq!(d.mgr.handle_event_at(Event::Tick, 5), Response::Ignored);
    d.mgr.handle_event_at(Event::ActiveWindowChanged(Some("kitty".into())), 6);
    assert_eq!(d.mgr.handle_event_at(Event::Tick, 10), Response::Flushed { merged: false });
}
