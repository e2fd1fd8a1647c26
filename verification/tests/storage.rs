use spyland::daemon::{store_action, tick, StoreAction};
use spyland::db::{QueryFilter, SessionSql, SortOrder};
use spyland::manager::{Clock, Configuration, Response, SessionManager};
use spyland::protocol::{
    answer_request, frame_message, handshake_response, message_of_line, Request,
    Response as IpcResponse, VERSION,
};
use spyland::session::{Event, Session, State};
use std::cell::Cell;
use std::rc::Rc;

#[derive(Clone)]
struct StepClock(Rc<Cell<i64>>);

impl Clock for StepClock {
    fn now(&self) -> i64 {
        self.0.get()
    }
}

#[test]
fn tests_session_mapping_test() {
    const START: i64 = 1;
    const END: i64 = 16;

    const APP_ID: &str = "example_test_app_id";
    const WORKSPACE: i32 = 2;

    let session = Session {
        start: START,
        end: END,
        state: State::Active { app_id: APP_ID.into(), workspace: Some(WORKSPACE) },
    };

    let session_sql: SessionSql = session.into();

    assert_eq!(session_sql.start, START);
    assert_eq!(session_sql.end, END);
    assert!(session_sql.is_active);
    assert_eq!(session_sql.app_id, Some(APP_ID.into()));
    assert_eq!(session_sql.workspace, Some(WORKSPACE as i64));

    let session2 = Session::from_sql(session_sql);

    assert_eq!(session2.start, START);
    assert_eq!(session2.end, END);
    assert!(matches!(
        session2.state,
        State::Active {
            app_id,
            workspace: Some(WORKSPACE),
        } if app_id == APP_ID
    ));
}

#[test]
fn db_session_mapping_test() {
    const START: i64 = 1;
    const END: i64 = 16;

    const APP_ID: &str = "example_test_app_id";
    const WORKSPACE: i32 = 2;

    let session = Session {
        start: START,
        end: END,
        state: State::Active { app_id: APP_ID.into(), workspace: Some(WORKSPACE) },
    };

    let session_sql: SessionSql = session.into();

    assert_eq!(session_sql.start, START);
    assert_eq!(session_sql.end, END);
    assert_eq!(session_sql.is_active, true);
    assert_eq!(session_sql.app_id, Some(APP_ID.into()));
    assert_eq!(session_sql.workspace, Some(WORKSPACE as i64));

    let session2 = Session::from_sql(session_sql);

    assert_eq!(session2.start, START);
    assert_eq!(session2.end, END);
    assert!(matches!(
        session2.state,
        State::Active {
            app_id,
            workspace: Some(WORKSPACE),
        } if app_id == APP_ID
    ));
}

#[test]
fn idle_session_row_has_no_app() {
    let row = SessionSql::from_session(Session { start: 3, end: 9, state: State::Idle });
    assert!(!row.is_active);
    assert_eq!(row.app_id, None);
    assert_eq!(row.workspace, None);
    let back = Session::from_sql(row);
    assert_eq!((back.start, back.end, back.state), (3, 9, State::Idle));
}

#[test]
fn row_workspace_is_truncated_to_i32() {
    let row = SessionSql {
        start: 0,
        end: 1,
        is_active: true,
        app_id: Some("a".into()),
        workspace: Some((1i64 << 32) + 7),
    };
    let s = Session::from_sql(row);
    assert_eq!(s.state, State::Active { app_id: "a".into(), workspace: Some(7) });
}

#[test]
fn query_filters() {
    let r = QueryFilter::for_range(10, 20);
    assert_eq!((r.from, r.to, r.limit, r.offset), (Some(10), Some(20), None, None));
    assert_eq!(r.sort_keys(), (None, None));
    let l = QueryFilter::for_last(5);
    assert_eq!(l.limit, Some(5));
    assert_eq!(l.sort_by_start, Some(SortOrder::Descending));
    assert_eq!(l.sort_keys(), (None, Some("start_desc")));
    let f = QueryFilter {
        sort_by_duration: Some(SortOrder::Ascending),
        sort_by_start: Some(SortOrder::Ascending),
        ..Default::default()
    };
    assert_eq!(f.sort_keys(), (Some("duration_asc"), Some("start_asc")));
    let f = QueryFilter { sort_by_duration: Some(SortOrder::Descending), ..Default::default() };
    assert_eq!(f.sort_keys(), (Some("duration_desc"), None));
}

#[test]
fn store_action_after_flush() {
    let s = Session { start: 1, end: 20, state: State::Active { app_id: "x".into(), workspace: None } };
    match store_action(Response::Flushed { merged: false }, Some(&s)) {
        StoreAction::Insert(row) => assert_eq!((row.start, row.end), (1, 20)),
        other => panic!("unexpected {other:?}"),
    }
    match store_action(Response::Flushed { merged: true }, Some(&s)) {
        StoreAction::UpdateLast(row) => assert_eq!(row.app_id, Some("x".into())),
        other => panic!("unexpected {other:?}"),
    }
    assert!(matches!(store_action(Response::Handled, Some(&s)), StoreAction::Nothing));
    assert!(matches!(store_action(Response::Flushed { merged: false }, None), StoreAction::Nothing));
}

#[test]
fn daemon_tick_stores_flushed_sessions() {
    let t = Rc::new(Cell::new(1));
    let mut sm = SessionManager::new(StepClock(t.clone()));
    sm.set_config(Configuration { min_session_duration: 0, ..Default::default() });
    assert!(matches!(tick(&mut sm), StoreAction::Nothing));
    sm.handle_event(Event::ActiveWindowChanged(Some("kitty".into())));
    t.set(10);
    assert!(matches!(tick(&mut sm), StoreAction::Nothing));
    t.set(16);
    match tick(&mut sm) {
        StoreAction::Insert(row) => assert_eq!((row.start, row.end), (1, 16)),
        other => panic!("unexpected {other:?}"),
    }
    t.set(31);
    match tick(&mut sm) {
        StoreAction::UpdateLast(row) => assert_eq!((row.start, row.end), (1, 31)),
        other => panic!("unexpected {other:?}"),
    }
}

#[test]
fn requests_are_answered() {
    let t = Rc::new(Cell::new(5));
    let mut sm = SessionManager::new(StepClock(t));
    assert_eq!(answer_request(&mut sm, Request::Ping), IpcResponse::Pong);
    assert_eq!(
        answer_request(
            &mut sm,
            Request::Handshake { protocol_version: VERSION, backend_name: "niri".into() }
        ),
        IpcResponse::Handshake { protocol_version: VERSION, is_accepted: true }
    );
    assert_eq!(
        handshake_response(VERSION + 1),
        IpcResponse::Handshake { protocol_version: VERSION, is_accepted: false }
    );
    assert_eq!(
        answer_request(&mut sm, Request::Event(Event::WorkspaceChanged(3))),
        IpcResponse::EventResponse(Response::Handled)
    );
    assert_eq!(
        answer_request(&mut sm, Request::Event(Event::ActiveWindowChanged(Some("a".into())))),
        IpcResponse::EventResponse(Response::SessionCreated)
    );
}

#[test]
fn message_framing() {
    let line = frame_message("{\"Ping\":null}");
    assert_eq!(line, "{\"Ping\":null}\n");
    assert_eq!(message_of_line(&line), "{\"Ping\":null}");
    assert_eq!(message_of_line("no newline"), "no newline");
    assert_eq!(message_of_line(""), "");
}
