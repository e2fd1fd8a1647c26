use spyland::analytics::{group_sessions, SessionAnalytics, SessionGroup};
use spyland::manager::{Clock, Configuration, SessionManager};
use spyland::session::{Event, Session, State};
use std::cell::RefCell;
use std::rc::Rc;

#[derive(Clone)]
struct SharedClock(Rc<RefCell<i64>>);

impl Clock for SharedClock {
    fn now(&self) -> i64 {
        *self.0.borrow()
    }
}

struct TestDriver {
    mgr: SessionManager<SharedClock>,
    clock: SharedClock,
}

impl TestDriver {
    fn new() -> Self {
        let mut d = Self::with_defaults();
        d.mgr.set_config(Configuration {
            min_session_duration: 0,
            ..Default::default()
        });
        d
    }

    fn with_defaults() -> Self {
        let clock = SharedClock(Rc::new(RefCell::new(1)));
        let mgr = SessionManager::new(clock.clone());
        Self { mgr, clock }
    }

    fn advance(&mut self, t: i64) {
        *self.clock.0.borrow_mut() += t;
        self.mgr.handle_event(Event::Tick);
    }

    fn event(&mut self, ev: Event) {
        self.mgr.handle_event(ev);
    }

    fn flush(&mut self) {
        self.mgr.flush();
    }

    fn update_and_flush(&mut self) {
        self.mgr.update();
        self.mgr.flush();
    }
}

fn active(app: &str, workspace: Option<i32>) -> State {
    State::Active { app_id: app.into(), workspace }
}

fn time_of(entries: &[(State, i64)], state: &State) -> i64 {
    entries
        .iter()
        .find(|(s, _)| s == state)
        .map(|(_, t)| *t)
        .expect("no such state")
}

#[test]
fn analytic_analytic_test() {
    let mut d = TestDriver::new();

    d.event(Event::ActiveWindowChanged(Some("org.telegram.desktop".into())));
    d.advance(12);
    d.flush();

    d.event(Event::ActiveWindowChanged(Some("firefox".into())));
    d.advance(12);
    d.flush();

    d.event(Event::ActiveWindowChanged(None));
    d.advance(12);
    d.flush();

    d.event(Event::ActiveWindowChanged(Some("org.telegram.desktop".into())));
    d.advance(12);
    d.flush();

    let a = SessionAnalytics::new(d.mgr.sessions().clone());

    assert_eq!(a.total_screen_time(), 36);
}

#[test]
fn analytic_test() {
    let mut d = TestDriver::with_defaults();

    d.event(Event::ActiveWindowChanged(Some("org.telegram.desktop".into())));
    d.advance(12);

    d.event(Event::ActiveWindowChanged(Some("firefox".into())));
    d.advance(12);

    d.event(Event::ActiveWindowChanged(Some("org.telegram.desktop".into())));
    d.advance(12);

    d.update_and_flush();

    let a = SessionAnalytics::new(d.mgr.sessions().clone());

    assert_eq!(a.total_screen_time(), 36);
}

#[test]
fn analytic_analytic_app_time_test() {
    let mut d = TestDriver::new();

    const APP_ID: &str = "org.gnome.Loupe";

    d.event(Event::ActiveWindowChanged(Some(APP_ID.into())));
    d.advance(16);
    d.flush();

    d.event(Event::ActiveWindowChanged(Some("firefox".into())));
    d.advance(14);
    d.flush();

    d.event(Event::ActiveWindowChanged(Some("org.telegram.desktop".into())));
    d.advance(20);
    d.flush();

    d.event(Event::ActiveWindowChanged(Some(APP_ID.into())));
    d.advance(4);
    d.flush();

    d.event(Event::ActiveWindowChanged(Some("alacritty".into())));
    d.advance(6);
    d.flush();

    let a = SessionAnalytics::new(d.mgr.sessions().clone());

    assert_eq!(a.screen_time_app(APP_ID.into()), 20);
}

#[test]
fn analytic_analytic_idle_test() {
    let mut d = TestDriver::new();

    d.event(Event::ActiveWindowChanged(Some("kitty".into())));
    d.advance(40);

    d.event(Event::ActiveWindowChanged(Some("firefox".into())));
    d.advance(16);

    d.event(Event::ActiveWindowChanged(None));
    d.advance(24);

    d.event(Event::ActiveWindowChanged(Some("kitty".into())));
    d.advance(38);

    d.event(Event::ActiveWindowChanged(Some("kitty".into())));
    d.advance(2);

    let a = SessionAnalytics::new(d.mgr.sessions().clone());
    assert_eq!(a.idle_time(), 24);
}

#[test]
fn analytic_idle_test() {
    let mut d = TestDriver::with_defaults();

    d.event(Event::ActiveWindowChanged(Some("kitty".into())));
    d.advance(40);

    d.event(Event::ActiveWindowChanged(Some("firefox".into())));
    d.advance(16);

    d.event(Event::ActiveWindowChanged(None));
    d.advance(24);

    d.event(Event::ActiveWindowChanged(Some("kitty".into())));
    d.advance(38);

    d.event(Event::ActiveWindowChanged(Some("kitty".into())));
    d.advance(2);

    let a = SessionAnalytics::new(d.mgr.sessions().clone());
    assert_eq!(a.idle_time(), 24);
}

#[test]
fn analytic_analytic_time_for_each_app_test() {
    let mut d = TestDriver::new();

    const APP_ID1: &str = "kitty";
    const APP_ID2: &str = "firefox";
    const APP_ID3: &str = "org.telegram.desktop";

    d.event(Event::ActiveWindowChanged(Some(APP_ID1.into())));
    d.advance(28);

    d.event(Event::ActiveWindowChanged(Some(APP_ID3.into())));
    d.advance(16);

    d.event(Event::ActiveWindowChanged(Some(APP_ID1.into())));
    d.advance(22);

    d.event(Event::ActiveWindowChanged(Some(APP_ID2.into())));
    d.advance(32);

    let a = SessionAnalytics::new(d.mgr.sessions().clone());
    let h = a.time_for_each_app();

    assert_eq!(h.len(), 3);

    let time = time_of(&h, &active(APP_ID1, None));
    assert_eq!(time, 28 + 22);

    let time = time_of(&h, &active(APP_ID2, None));
    assert_eq!(time, 32);

    let time = time_of(&h, &active(APP_ID3, None));
    assert_eq!(time, 16);
}

#[test]
fn group_sessions_test() {
    const S1_APP_ID: &str = "firefox";
    const S1_START: i64 = 0;
    const S2_APP_ID: &str = "code";
    const S2_START: i64 = 10;

    let s1 = Session { start: S1_START, end: 10, state: active(S1_APP_ID, Some(1)) };
    let s2 = Session { start: S2_START, end: 20, state: active(S2_APP_ID, Some(2)) };
    let s3 = Session { start: 20, end: 30, state: active("steam", Some(3)) };
    let s4 = Session { start: 30, end: 40, state: State::Idle };

    let dev_group = SessionGroup { app_ids: vec![S2_APP_ID.into()], workspaces: vec![2] };
    let browser_group = SessionGroup { app_ids: vec![S1_APP_ID.into()], workspaces: vec![] };

    let groups = vec![dev_group.clone(), browser_group.clone()];
    let grouped = group_sessions(vec![s1, s2, s3, s4], &groups);
    let get = |key: &Option<SessionGroup>| {
        grouped.iter().find(|(k, _)| k == key).map(|(_, v)| v)
    };

    {
        let group = get(&Some(dev_group.clone())).unwrap();
        assert_eq!(group.len(), 1);
        assert_eq!(group[0].start, S2_START);
    }

    {
        let group = get(&Some(browser_group.clone())).unwrap();
        assert_eq!(group.len(), 1);
        assert_eq!(group[0].start, S1_START);
    }

    assert_eq!(get(&None).unwrap().len(), 2);
}

// Properties of the statistics on concrete values.

fn sample() -> Vec<Session> {
    vec![
        Session { start: 0, end: 50, state: State::Idle },
        Session { start: 50, end: 120, state: active("app", None) },
        Session { start: 120, end: 130, state: active("app", Some(2)) },
        Session { start: 130, end: 150, state: active("web", Some(2)) },
        Session { start: 150, end: 151, state: State::Idle },
    ]
}

#[test]
fn total_screen_time_counts_active_only() {
    let a = SessionAnalytics::new(sample());
    assert_eq!(a.total_screen_time(), 70 + 10 + 20);
    assert_eq!(a.idle_time(), 51);
    assert_eq!(a.total_screen_time() + a.idle_time(), 151);
}

#[test]
fn screen_time_app_sums_over_workspaces() {
    let a = SessionAnalytics::new(sample());
    assert_eq!(a.screen_time_app("app".into()), 80);
    assert_eq!(a.screen_time_app("web".into()), 20);
    assert_eq!(a.screen_time_app("none".into()), 0);
}

#[test]
fn time_for_each_app_keys_in_first_order_and_sum_to_all() {
    let a = SessionAnalytics::new(sample());
    let h = a.time_for_each_app();
    let states: Vec<State> = h.iter().map(|(s, _)| s.clone()).collect();
    assert_eq!(
        states,
        vec![State::Idle, active("app", None), active("app", Some(2)), active("web", Some(2))]
    );
    assert_eq!(time_of(&h, &State::Idle), 51);
    assert_eq!(h.iter().map(|(_, t)| *t).sum::<i64>(), 151);
}

#[test]
fn time_per_app_merges_workspaces() {
    let a = SessionAnalytics::new(sample());
    assert_eq!(a.time_per_app(), vec![("app".to_string(), 80), ("web".to_string(), 20)]);
}

#[test]
fn empty_statistics_are_zero() {
    let a = SessionAnalytics::new(vec![]);
    assert_eq!(a.total_screen_time(), 0);
    assert_eq!(a.idle_time(), 0);
    assert!(a.time_for_each_app().is_empty());
}

#[test]
fn group_matching_rules() {
    let any = SessionGroup { app_ids: vec![], workspaces: vec![] };
    let ws3 = SessionGroup { app_ids: vec![], workspaces: vec![3] };
    let on3 = Session { start: 0, end: 1, state: active("x", Some(3)) };
    let nows = Session { start: 0, end: 1, state: active("x", None) };
    let idle = Session { start: 0, end: 1, state: State::Idle };
    assert!(any.matches(&on3));
    assert!(any.matches(&nows));
    assert!(!any.matches(&idle));
    assert!(ws3.matches(&on3));
    assert!(!ws3.matches(&nows));
}

#[test]
fn grouping_takes_the_first_matching_group_and_keeps_every_session() {
    let first = SessionGroup { app_ids: vec!["a".into()], workspaces: vec![] };
    let second = SessionGroup { app_ids: vec![], workspaces: vec![] };
    let sessions = vec![
        Session { start: 0, end: 1, state: active("b", None) },
        Session { start: 1, end: 2, state: active("a", None) },
        Session { start: 2, end: 3, state: State::Idle },
        Session { start: 3, end: 4, state: active("a", Some(1)) },
    ];
    let grouped = group_sessions(sessions, &[first.clone(), second.clone()]);
    assert_eq!(grouped.len(), 3);
    assert_eq!(grouped[0].0, Some(second));
    assert_eq!(grouped[1].0, Some(first));
    assert_eq!(grouped[1].1.iter().map(|s| s.start).collect::<Vec<_>>(), vec![1, 3]);
    assert_eq!(grouped[2].0, None);
    assert_eq!(grouped.iter().map(|(_, v)| v.len()).sum::<usize>(), 4);
}
